use rjoin::config::{JoinConfig, JoinFileConfig, KeyField, OutputField, OutputOrder};
use rjoin::join::join;

struct Plain {
    lines: std::vec::IntoIter<String>,
    all: bool,
    eof: bool,
    printed: bool,
    row: String,
    next_row: String,
}

impl Plain {
    fn new(lines: &[String], all: bool) -> Plain {
        let mut plain = Plain {
            lines: lines.to_vec().into_iter(),
            all,
            eof: false,
            printed: false,
            row: String::new(),
            next_row: String::new(),
        };
        assert!(plain.read_line());
        assert!(plain.refill());
        plain
    }

    fn read_line(&mut self) -> bool {
        match self.lines.next() {
            Some(line) => {
                self.next_row = line;
                true
            }
            None => {
                self.eof = true;
                false
            }
        }
    }

    fn refill(&mut self) -> bool {
        if self.eof {
            return false;
        }
        self.row = self.next_row.clone();
        self.printed = false;
        self.read_line();
        true
    }
}

fn key(row: &str) -> &str {
    row.split('\t').next().unwrap()
}

fn tag(row: &str) -> &str {
    row.split('\t').nth(1).unwrap()
}

fn emit(out: &mut Vec<String>, left: &mut Plain, right: &mut Plain, l: bool, r: bool) {
    if l {
        left.printed = true;
    }
    if r {
        right.printed = true;
    }
    let k = if l { key(&left.row) } else { key(&right.row) };
    let a = if l { tag(&left.row) } else { "<" };
    let b = if r { tag(&right.row) } else { ">" };
    out.push(format!("{}\t{}\t{}", k, a, b));
}

fn plain_merge(left: &[String], right: &[String], left_all: bool, right_all: bool) -> Vec<String> {
    let mut out = Vec::new();
    let mut l = Plain::new(left, left_all);
    let mut r = Plain::new(right, right_all);
    let mut todo = true;
    while todo {
        let order = key(&l.row).as_bytes().cmp(key(&r.row).as_bytes());
        match order {
            std::cmp::Ordering::Equal => {
                emit(&mut out, &mut l, &mut r, true, true);
                todo = if l.eof {
                    r.refill()
                } else if r.eof {
                    l.refill()
                } else {
                    match key(&l.next_row).as_bytes().cmp(key(&r.next_row).as_bytes()) {
                        std::cmp::Ordering::Equal => l.refill() && r.refill(),
                        std::cmp::Ordering::Less => l.refill(),
                        std::cmp::Ordering::Greater => r.refill(),
                    }
                };
            }
            std::cmp::Ordering::Less => {
                if l.all && !l.printed {
                    emit(&mut out, &mut l, &mut r, true, false);
                }
                todo = l.refill();
            }
            std::cmp::Ordering::Greater => {
                if r.all && !r.printed {
                    emit(&mut out, &mut l, &mut r, false, true);
                }
                todo = r.refill();
            }
        }
    }
    if l.all && !l.printed {
        emit(&mut out, &mut l, &mut r, true, false);
    }
    if r.all && !r.printed {
        emit(&mut out, &mut l, &mut r, false, true);
    }
    if !l.eof && l.all {
        while l.refill() {
            emit(&mut out, &mut l, &mut r, true, false);
        }
    } else if !r.eof && r.all {
        while r.refill() {
            emit(&mut out, &mut l, &mut r, false, true);
        }
    }
    out
}

fn library_join(left: &[String], right: &[String], left_all: bool, right_all: bool) -> Vec<String> {
    let side = |all: bool, missing: &str| JoinFileConfig {
        all,
        key_fields: vec![KeyField::Indexed(0)],
        filename: String::new(),
        missing: String::from(missing),
    };
    let config = JoinConfig {
        left: side(left_all, "<"),
        right: side(right_all, ">"),
        output: OutputOrder::Explicit(vec![
            OutputField::JoinField,
            OutputField::FileField { file: 1, field: 1 },
            OutputField::FileField { file: 2, field: 1 },
        ]),
        delim: String::from("\t"),
        has_header: false,
    };
    let bytes = |rows: &[String]| rows.iter().map(|r| r.as_bytes().to_vec()).collect::<Vec<_>>();
    join(config, &bytes(left), &bytes(right))
        .unwrap()
        .into_iter()
        .map(|row| String::from_utf8(row).unwrap())
        .collect()
}

struct Dice(u64);

impl Dice {
    fn roll(&mut self, sides: u64) -> u64 {
        self.0 = self.0.wrapping_mul(6364136223846793005).wrapping_add(1442695040888963407);
        (self.0 >> 33) % sides
    }
}

fn input(dice: &mut Dice, name: &str, sort: bool) -> Vec<String> {
    let count = 1 + dice.roll(7);
    let mut keys: Vec<u64> = (0..count).map(|_| dice.roll(6)).collect();
    if sort {
        keys.sort();
    }
    keys.iter().enumerate().map(|(n, k)| format!("k{}\t{}{}", k, name, n)).collect()
}

#[test]
fn join_agrees_with_a_plain_merge_on_sorted_inputs() {
    let mut dice = Dice(1);
    for _ in 0..2000 {
        let left = input(&mut dice, "l", true);
        let right = input(&mut dice, "r", true);
        for (left_all, right_all) in [(false, false), (true, false), (false, true), (true, true)] {
            assert_eq!(
                library_join(&left, &right, left_all, right_all),
                plain_merge(&left, &right, left_all, right_all)
            );
        }
    }
}

#[test]
fn join_agrees_with_a_plain_merge_on_inputs_out_of_order() {
    let mut dice = Dice(2);
    for _ in 0..2000 {
        let left = input(&mut dice, "l", false);
        let right = input(&mut dice, "r", false);
        for (left_all, right_all) in [(false, false), (true, false), (false, true), (true, true)] {
            assert_eq!(
                library_join(&left, &right, left_all, right_all),
                plain_merge(&left, &right, left_all, right_all)
            );
        }
    }
}

#[test]
fn join_of_sorted_inputs_is_the_join_by_definition() {
    let mut dice = Dice(3);
    let mut checked = 0;
    while checked < 500 {
        let left = input(&mut dice, "l", true);
        let right = input(&mut dice, "r", true);
        let repeats = |rows: &[String], k: &str| rows.iter().filter(|r| key(r) == k).count() > 1;
        if left.iter().any(|l| repeats(&left, key(l)) && repeats(&right, key(l))) {
            continue;
        }
        checked += 1;
        let mut expected = Vec::new();
        for l in &left {
            for r in &right {
                if key(l) == key(r) {
                    expected.push(format!("{}\t{}\t{}", key(l), tag(l), tag(r)));
                }
            }
            if !right.iter().any(|r| key(r) == key(l)) {
                expected.push(format!("{}\t{}\t>", key(l), tag(l)));
            }
        }
        for r in &right {
            if !left.iter().any(|l| key(l) == key(r)) {
                expected.push(format!("{}\t<\t{}", key(r), tag(r)));
            }
        }
        let mut rows = library_join(&left, &right, true, true);
        assert_eq!(rows.len(), expected.len());
        rows.sort();
        expected.sort();
        assert_eq!(rows, expected);
    }
}
