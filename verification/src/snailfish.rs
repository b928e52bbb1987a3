//! A recursive pair-number calculus: numbers are either regular values or
//! pairs of numbers.  Deeply nested pairs explode, large regular values
//! split, and a number reduces by repeating those two moves until neither
//! applies.  Every operation is specified by a structural model function,
//! and reduction is pinned to the deterministic step sequence it follows.

use vstd::prelude::*;
use vstd::string::StrSliceExecFns;

verus! {

/// A number: a regular value, or a pair of two numbers.
#[derive(Debug, PartialEq, Eq)]
pub enum Number {
    Regular(u64),
    Pair(Box<Number>, Box<Number>),
}

/// Sum of all regular values in a number.
pub open spec fn spec_sum(n: Number) -> nat
    decreases n,
{
    match n {
        Number::Regular(v) => v as nat,
        Number::Pair(l, r) => spec_sum(*l) + spec_sum(*r),
    }
}

/// Model of adding to the leftmost regular value.
pub open spec fn spec_add_left(n: Number, amount: u64) -> Number
    decreases n,
{
    match n {
        Number::Regular(v) => Number::Regular((v + amount) as u64),
        Number::Pair(l, r) => Number::Pair(Box::new(spec_add_left(*l, amount)), r),
    }
}

/// Model of adding to the rightmost regular value.
pub open spec fn spec_add_right(n: Number, amount: u64) -> Number
    decreases n,
{
    match n {
        Number::Regular(v) => Number::Regular((v + amount) as u64),
        Number::Pair(l, r) => Number::Pair(l, Box::new(spec_add_right(*r, amount))),
    }
}

/// Result of one explosion attempt: the rewritten number, whether a pair
/// exploded, and the two values still looking for a regular neighbour.
#[derive(Debug)]
pub struct ExplosionResult {
    pub number: Number,
    pub is_reduced: bool,
    pub add_left: u64,
    pub add_right: u64,
}

/// Depth for the next level: saturates once past the explosion threshold,
/// which no comparison can tell apart.
pub open spec fn deeper(depth: u32) -> u32 {
    if depth >= 5 {
        depth
    } else {
        (depth + 1) as u32
    }
}

/// Model of one explosion attempt: the leftmost pair of regular values at
/// depth four or more is replaced by zero, its values carried outwards.
pub open spec fn spec_explode(n: Number, depth: u32) -> ExplosionResult
    decreases n,
{
    match n {
        Number::Regular(_) => ExplosionResult {
            number: n,
            is_reduced: false,
            add_left: 0,
            add_right: 0,
        },
        Number::Pair(l, r) => {
            if (*l) matches Number::Regular(a) && (*r) matches Number::Regular(b) && depth >= 4 {
                ExplosionResult {
                    number: Number::Regular(0),
                    is_reduced: true,
                    add_left: (*l)->Regular_0,
                    add_right: (*r)->Regular_0,
                }
            } else if (*l) matches Number::Regular(a) {
                let e = spec_explode(*r, deeper(depth));
                ExplosionResult {
                    number: Number::Pair(
                        Box::new(Number::Regular(((*l)->Regular_0 + e.add_left) as u64)),
                        Box::new(e.number),
                    ),
                    is_reduced: e.is_reduced,
                    add_left: 0,
                    add_right: e.add_right,
                }
            } else if (*r) matches Number::Regular(b) {
                let e = spec_explode(*l, deeper(depth));
                ExplosionResult {
                    number: Number::Pair(
                        Box::new(e.number),
                        Box::new(Number::Regular(((*r)->Regular_0 + e.add_right) as u64)),
                    ),
                    is_reduced: e.is_reduced,
                    add_left: e.add_left,
                    add_right: 0,
                }
            } else {
                let le = spec_explode(*l, deeper(depth));
                let re = if !le.is_reduced {
                    spec_explode(*r, deeper(depth))
                } else {
                    ExplosionResult { number: *r, is_reduced: false, add_left: 0, add_right: 0 }
                };
                ExplosionResult {
                    number: Number::Pair(
                        Box::new(spec_add_right(le.number, re.add_left)),
                        Box::new(spec_add_left(re.number, le.add_right)),
                    ),
                    is_reduced: le.is_reduced || re.is_reduced,
                    add_left: le.add_left,
                    add_right: re.add_right,
                }
            }
        },
    }
}

/// Model of one split attempt: the leftmost regular value of ten or more
/// becomes a pair of its halves, rounded down and up.
pub open spec fn spec_split(n: Number) -> (Number, bool)
    decreases n,
{
    match n {
        Number::Regular(v) => {
            if v >= 10 {
                (
                    Number::Pair(
                        Box::new(Number::Regular((v / 2) as u64)),
                        Box::new(Number::Regular((v - v / 2) as u64)),
                    ),
                    true,
                )
            } else {
                (n, false)
            }
        },
        Number::Pair(l, r) => {
            let (ls, lred) = spec_split(*l);
            if lred {
                (Number::Pair(Box::new(ls), r), true)
            } else {
                let (rs, rred) = spec_split(*r);
                (Number::Pair(Box::new(ls), Box::new(rs)), rred)
            }
        },
    }
}

/// Model of the magnitude: three times the left plus twice the right.
pub open spec fn spec_magnitude(n: Number) -> nat
    decreases n,
{
    match n {
        Number::Regular(v) => v as nat,
        Number::Pair(l, r) => 3 * spec_magnitude(*l) + 2 * spec_magnitude(*r),
    }
}

/// One reduction step: explode if possible, otherwise split if possible.
pub open spec fn spec_step(n: Number) -> Option<Number> {
    let e = spec_explode(n, 0);
    if e.is_reduced {
        Some(e.number)
    } else {
        let (s, red) = spec_split(n);
        if red {
            Some(s)
        } else {
            None
        }
    }
}

/// The number after `k` reduction steps (staying put once reduced).
pub open spec fn steps(n: Number, k: nat) -> Number
    decreases k,
{
    if k == 0 {
        n
    } else {
        let prev = steps(n, (k - 1) as nat);
        match spec_step(prev) {
            Some(m) => m,
            None => prev,
        }
    }
}

/// A number reduces when some finite run of steps ends where neither an
/// explosion nor a split applies.
pub open spec fn reduction_halts(n: Number) -> bool {
    exists|k: nat| spec_step(#[trigger] steps(n, k)) is None
}

/// Adding zero changes nothing.
pub proof fn lemma_add_zero(n: Number)
    ensures
        spec_add_left(n, 0) == n,
        spec_add_right(n, 0) == n,
    decreases n,
{
    match n {
        Number::Regular(_) => {},
        Number::Pair(l, r) => {
            lemma_add_zero(*l);
            lemma_add_zero(*r);
        },
    }
}

/// Adding keeps the total sum in step.
pub proof fn lemma_add_sum(n: Number, amount: u64)
    requires
        spec_sum(n) + amount <= u64::MAX,
    ensures
        spec_sum(spec_add_left(n, amount)) == spec_sum(n) + amount,
        spec_sum(spec_add_right(n, amount)) == spec_sum(n) + amount,
    decreases n,
{
    match n {
        Number::Regular(_) => {},
        Number::Pair(l, r) => {
            lemma_add_sum(*l, amount);
            lemma_add_sum(*r, amount);
        },
    }
}

/// An explosion conserves the total sum: what leaves the number is exactly
/// what the carries hold.
pub proof fn lemma_explode_sum(n: Number, depth: u32)
    requires
        spec_sum(n) <= u64::MAX,
    ensures
        spec_sum(spec_explode(n, depth).number) + spec_explode(n, depth).add_left
            + spec_explode(n, depth).add_right == spec_sum(n),
    decreases n,
{
    match n {
        Number::Regular(_) => {},
        Number::Pair(l, r) => {
            assert(spec_sum(n) == spec_sum(*l) + spec_sum(*r));
            if (*l) matches Number::Regular(a) && (*r) matches Number::Regular(b) && depth >= 4 {
                assert(spec_sum(Number::Regular(0)) == 0);
            } else if (*l) matches Number::Regular(a) {
                lemma_explode_sum(*r, deeper(depth));
                let e = spec_explode(*r, deeper(depth));
                assert(spec_sum(*l) == (*l)->Regular_0 as nat);
                assert(spec_sum(Number::Regular(((*l)->Regular_0 + e.add_left) as u64))
                    == (*l)->Regular_0 + e.add_left);
            } else if (*r) matches Number::Regular(b) {
                lemma_explode_sum(*l, deeper(depth));
                let e = spec_explode(*l, deeper(depth));
                assert(spec_sum(*r) == (*r)->Regular_0 as nat);
                assert(spec_sum(Number::Regular(((*r)->Regular_0 + e.add_right) as u64))
                    == (*r)->Regular_0 + e.add_right);
            } else {
                let le = spec_explode(*l, deeper(depth));
                lemma_explode_sum(*l, deeper(depth));
                if !le.is_reduced {
                    lemma_explode_sum(*r, deeper(depth));
                }
                let re = if !le.is_reduced {
                    spec_explode(*r, deeper(depth))
                } else {
                    ExplosionResult { number: *r, is_reduced: false, add_left: 0, add_right: 0 }
                };
                lemma_add_sum(le.number, re.add_left);
                lemma_add_sum(re.number, le.add_right);
            }
        },
    }
}

/// A failed explosion hands the number back unchanged, with no carries.
pub proof fn lemma_explode_noop(n: Number, depth: u32)
    requires
        !spec_explode(n, depth).is_reduced,
    ensures
        spec_explode(n, depth).number == n,
        spec_explode(n, depth).add_left == 0,
        spec_explode(n, depth).add_right == 0,
    decreases n,
{
    match n {
        Number::Regular(_) => {},
        Number::Pair(l, r) => {
            if (*l) matches Number::Regular(a) && (*r) matches Number::Regular(b) && depth >= 4 {
            } else if (*l) matches Number::Regular(a) {
                lemma_explode_noop(*r, deeper(depth));
                lemma_add_zero(n);
            } else if (*r) matches Number::Regular(b) {
                lemma_explode_noop(*l, deeper(depth));
            } else {
                lemma_explode_noop(*l, deeper(depth));
                lemma_explode_noop(*r, deeper(depth));
                lemma_add_zero(spec_explode(*l, deeper(depth)).number);
                lemma_add_zero(spec_explode(*r, deeper(depth)).number);
            }
        },
    }
}

/// A split conserves the total sum.
pub proof fn lemma_split_sum(n: Number)
    ensures
        spec_sum(spec_split(n).0) == spec_sum(n),
    decreases n,
{
    match n {
        Number::Regular(v) => {
            if v >= 10 {
                assert(v / 2 <= v) by (nonlinear_arith);
                assert(spec_sum(Number::Regular((v / 2) as u64)) == v / 2);
                assert(spec_sum(Number::Regular((v - v / 2) as u64)) == v - v / 2);
            }
        },
        Number::Pair(l, r) => {
            lemma_split_sum(*l);
            lemma_split_sum(*r);
        },
    }
}

/// A failed split hands the number back unchanged.
pub proof fn lemma_split_noop(n: Number)
    requires
        !spec_split(n).1,
    ensures
        spec_split(n).0 == n,
    decreases n,
{
    match n {
        Number::Regular(_) => {},
        Number::Pair(l, r) => {
            lemma_split_noop(*l);
            lemma_split_noop(*r);
        },
    }
}


/// A decimal digit.
pub open spec fn is_digit(c: char) -> bool {
    '0' <= c && c <= '9'
}

/// Value of a decimal digit.
pub open spec fn digit_val(c: char) -> nat {
    (c as int - 48) as nat
}

/// Value and end position of the digit run starting at `i`, with `acc`
/// already read.
pub open spec fn spec_digits(s: Seq<char>, i: int, acc: nat) -> (nat, int)
    decreases s.len() - i,
{
    if i < 0 || i >= s.len() || !is_digit(s[i]) {
        (acc, i)
    } else {
        spec_digits(s, i + 1, acc * 10 + digit_val(s[i]))
    }
}

/// Scanning digits never shrinks the accumulated value, and ends within
/// the string.
pub proof fn lemma_digits_bounds(s: Seq<char>, i: int, acc: nat)
    requires
        0 <= i <= s.len(),
    ensures
        spec_digits(s, i, acc).0 >= acc,
        i <= spec_digits(s, i, acc).1 <= s.len(),
    decreases s.len() - i,
{
    if !(i >= s.len() || !is_digit(s[i])) {
        assert(acc * 10 + digit_val(s[i]) >= acc) by (nonlinear_arith);
        lemma_digits_bounds(s, i + 1, acc * 10 + digit_val(s[i]));
    }
}

/// The parser model: at position `i`, a digit run is a regular value and
/// an opening bracket starts a pair of two numbers separated by a comma.
pub open spec fn spec_parse_at(s: Seq<char>, i: int, fuel: nat) -> Option<(Number, int)>
    decreases fuel,
{
    if fuel == 0 || i < 0 || i >= s.len() {
        None
    } else if is_digit(s[i]) {
        let (v, j) = spec_digits(s, i, 0);
        if v <= u64::MAX {
            Some((Number::Regular(v as u64), j))
        } else {
            None
        }
    } else if s[i] == '[' {
        match spec_parse_at(s, i + 1, (fuel - 1) as nat) {
            Option::None => None,
            Option::Some((l, j)) => {
                if 0 <= j < s.len() && s[j] == ',' {
                    match spec_parse_at(s, j + 1, (fuel - 1) as nat) {
                        Option::None => None,
                        Option::Some((r, k)) => {
                            if 0 <= k < s.len() && s[k] == ']' {
                                Some((Number::Pair(Box::new(l), Box::new(r)), k + 1))
                            } else {
                                None
                            }
                        },
                    }
                } else {
                    None
                }
            },
        }
    } else {
        None
    }
}

/// A successful parse ends strictly after where it began, within the
/// string.
pub proof fn lemma_parse_bounds(s: Seq<char>, i: int, fuel: nat)
    requires
        0 <= i,
        spec_parse_at(s, i, fuel) is Some,
    ensures
        i < spec_parse_at(s, i, fuel)->Some_0.1 <= s.len(),
    decreases fuel,
{
    if i < s.len() && is_digit(s[i]) {
        lemma_digits_bounds(s, i + 1, digit_val(s[i]));
    } else {
        match spec_parse_at(s, i + 1, (fuel - 1) as nat) {
            Option::None => {},
            Option::Some((l, j)) => {
                lemma_parse_bounds(s, i + 1, (fuel - 1) as nat);
                if 0 <= j < s.len() && s[j] == ',' {
                    match spec_parse_at(s, j + 1, (fuel - 1) as nat) {
                        Option::None => {},
                        Option::Some((r, k)) => {
                            lemma_parse_bounds(s, j + 1, (fuel - 1) as nat);
                        },
                    }
                }
            },
        }
    }
}

/// The whole string parses as exactly one number.
pub open spec fn parse_ok(s: Seq<char>) -> bool {
    match spec_parse_at(s, 0, s.len()) {
        Option::Some((n, j)) => j == s.len(),
        Option::None => false,
    }
}

/// The number the whole string parses to.
pub open spec fn spec_parse(s: Seq<char>) -> Number {
    spec_parse_at(s, 0, s.len())->Some_0.0
}

/// Read the digit run starting at `i`.
fn scan_digits(s: &str, i: usize) -> (r: (u64, usize))
    requires
        i <= s@.len(),
        spec_digits(s@, i as int, 0).0 <= u64::MAX,
    ensures
        r.0 as nat == spec_digits(s@, i as int, 0).0,
        r.1 as int == spec_digits(s@, i as int, 0).1,
        r.1 <= s@.len(),
    decreases s@.len() - i,
{
    let len = s.unicode_len();
    let mut j: usize = i;
    let mut acc: u64 = 0;
    proof {
        lemma_digits_bounds(s@, i as int, 0);
    }
    while j < len && s.get_char(j) >= '0' && s.get_char(j) <= '9'
        invariant
            i <= j <= len,
            len == s@.len(),
            spec_digits(s@, i as int, 0) == spec_digits(s@, j as int, acc as nat),
            spec_digits(s@, i as int, 0).0 <= u64::MAX,
        decreases len - j,
    {
        let c = s.get_char(j);
        let d: u64 = (c as u32 - 48) as u64;
        proof {
            assert(is_digit(s@[j as int]));
            assert(d as nat == digit_val(s@[j as int]));
            assert(spec_digits(s@, j as int, acc as nat)
                == spec_digits(s@, j as int + 1, acc as nat * 10 + digit_val(s@[j as int])));
            lemma_digits_bounds(s@, j as int + 1, acc as nat * 10 + digit_val(s@[j as int]));
        }
        acc = acc * 10 + d;
        j = j + 1;
    }
    proof {
        if j < len {
            assert(!is_digit(s@[j as int]));
        }
        assert(spec_digits(s@, j as int, acc as nat) == (acc as nat, j as int));
    }
    (acc, j)
}

/// Parse the number starting at position `i`.
fn parse_at(s: &str, i: usize, fuel: usize) -> (r: (Number, usize))
    requires
        i <= s@.len(),
        s@.len() <= usize::MAX,
        spec_parse_at(s@, i as int, fuel as nat) is Some,
    ensures
        spec_parse_at(s@, i as int, fuel as nat) == Some((r.0, r.1 as int)),
        r.1 <= s@.len(),
    decreases fuel,
{
    proof {
        lemma_parse_bounds(s@, i as int, fuel as nat);
    }
    let c = s.get_char(i);
    if c >= '0' && c <= '9' {
        proof {
            assert(is_digit(s@[i as int]));
        }
        let (v, j) = scan_digits(s, i);
        (Number::Regular(v), j)
    } else {
        proof {
            assert(s@[i as int] == '[');
            assert(fuel >= 1);
            assert(spec_parse_at(s@, i as int + 1, (fuel - 1) as nat) is Some);
        }
        let (l, j) = parse_at(s, i + 1, fuel - 1);
        proof {
            assert(0 <= j < s@.len() && s@[j as int] == ',');
            assert(spec_parse_at(s@, j as int + 1, (fuel - 1) as nat) is Some);
        }
        let (r2, k) = parse_at(s, j + 1, fuel - 1);
        proof {
            assert(0 <= k < s@.len() && s@[k as int] == ']');
        }
        (Number::Pair(Box::new(l), Box::new(r2)), k + 1)
    }
}

impl Number {
    /// Parse the given string expression as a number: either a decimal
    /// value or a bracketed, comma-separated pair of two expressions.
    pub fn parse(s: &str) -> (r: Number)
        requires
            parse_ok(s@),
        ensures
            r == spec_parse(s@),
    {
        let len = s.unicode_len();
        let (n, _end) = parse_at(s, 0, len);
        n
    }
}

impl Number {
    /// Add the given amount to the leftmost regular value.
    pub fn add_left(self, amount: u64) -> (r: Number)
        requires
            spec_sum(self) + amount <= u64::MAX,
        ensures
            r == spec_add_left(self, amount),
        decreases self,
    {
        match self {
            Number::Regular(v) => Number::Regular(v + amount),
            Number::Pair(l, r) => Number::Pair(Box::new((*l).add_left(amount)), r),
        }
    }

    /// Add the given amount to the rightmost regular value.
    pub fn add_right(self, amount: u64) -> (r: Number)
        requires
            spec_sum(self) + amount <= u64::MAX,
        ensures
            r == spec_add_right(self, amount),
        decreases self,
    {
        match self {
            Number::Regular(v) => Number::Regular(v + amount),
            Number::Pair(l, r) => Number::Pair(l, Box::new((*r).add_right(amount))),
        }
    }

    /// Perform one explosion attempt: the leftmost pair of regular values
    /// nested four levels deep is replaced by zero, and its two values are
    /// carried towards the nearest regular neighbours.
    pub fn explode(self, depth: u32) -> (r: ExplosionResult)
        requires
            spec_sum(self) <= u64::MAX,
        ensures
            r == spec_explode(self, depth),
        decreases self,
    {
        proof {
            lemma_explode_sum(self, depth);
        }
        match self {
            Number::Regular(v) => ExplosionResult {
                number: Number::Regular(v),
                is_reduced: false,
                add_left: 0,
                add_right: 0,
            },
            Number::Pair(l, r) => {
                let ghost whole = Number::Pair(l, r);
                match (*l, *r) {
                    (Number::Regular(a), Number::Regular(b)) => {
                        if depth >= 4 {
                            ExplosionResult {
                                number: Number::Regular(0),
                                is_reduced: true,
                                add_left: a,
                                add_right: b,
                            }
                        } else {
                            ExplosionResult {
                                number: Number::Pair(
                                    Box::new(Number::Regular(a)),
                                    Box::new(Number::Regular(b)),
                                ),
                                is_reduced: false,
                                add_left: 0,
                                add_right: 0,
                            }
                        }
                    },
                    (Number::Regular(a), rr) => {
                        proof {
                            assert(spec_sum(Number::Regular(a)) == a as nat);
                            assert(spec_sum(whole) == a as nat + spec_sum(rr));
                            lemma_explode_sum(rr, deeper(depth));
                        }
                        let e = rr.explode(if depth >= 5 {
                            depth
                        } else {
                            depth + 1
                        });
                        ExplosionResult {
                            number: Number::Pair(
                                Box::new(Number::Regular(a + e.add_left)),
                                Box::new(e.number),
                            ),
                            is_reduced: e.is_reduced,
                            add_left: 0,
                            add_right: e.add_right,
                        }
                    },
                    (ll, Number::Regular(b)) => {
                        proof {
                            assert(spec_sum(Number::Regular(b)) == b as nat);
                            assert(spec_sum(whole) == spec_sum(ll) + b as nat);
                            lemma_explode_sum(ll, deeper(depth));
                        }
                        let e = ll.explode(if depth >= 5 {
                            depth
                        } else {
                            depth + 1
                        });
                        ExplosionResult {
                            number: Number::Pair(
                                Box::new(e.number),
                                Box::new(Number::Regular(b + e.add_right)),
                            ),
                            is_reduced: e.is_reduced,
                            add_left: e.add_left,
                            add_right: 0,
                        }
                    },
                    (ll, rr) => {
                        proof {
                            assert(spec_sum(whole) == spec_sum(ll) + spec_sum(rr));
                            lemma_explode_sum(ll, deeper(depth));
                            lemma_explode_sum(rr, deeper(depth));
                        }
                        let ghost llv = ll;
                        let ghost rrv = rr;
                        let le = ll.explode(if depth >= 5 {
                            depth
                        } else {
                            depth + 1
                        });
                        let re = if !le.is_reduced {
                            rr.explode(if depth >= 5 {
                                depth
                            } else {
                                depth + 1
                            })
                        } else {
                            ExplosionResult {
                                number: rr,
                                is_reduced: false,
                                add_left: 0,
                                add_right: 0,
                            }
                        };
                        let left_num = le.number.add_right(re.add_left);
                        let right_num = re.number.add_left(le.add_right);
                        ExplosionResult {
                            number: Number::Pair(Box::new(left_num), Box::new(right_num)),
                            is_reduced: le.is_reduced || re.is_reduced,
                            add_left: le.add_left,
                            add_right: re.add_right,
                        }
                    },
                }
            },
        }
    }

    /// Perform one split attempt: the leftmost regular value of ten or
    /// more becomes a pair of its halves.  The flag reports whether a
    /// split happened.
    pub fn split(self) -> (r: (Number, bool))
        ensures
            r == spec_split(self),
        decreases self,
    {
        match self {
            Number::Regular(v) => {
                if v >= 10 {
                    proof {
                        assert(v / 2 <= v) by (nonlinear_arith);
                    }
                    (
                        Number::Pair(
                            Box::new(Number::Regular(v / 2)),
                            Box::new(Number::Regular(v - v / 2)),
                        ),
                        true,
                    )
                } else {
                    (Number::Regular(v), false)
                }
            },
            Number::Pair(l, r) => {
                let (ls, lred) = (*l).split();
                if lred {
                    (Number::Pair(Box::new(ls), r), true)
                } else {
                    let (rs, rred) = (*r).split();
                    (Number::Pair(Box::new(ls), Box::new(rs)), rred)
                }
            },
        }
    }

    /// Reduce this number: explode or split, one move at a time, until
    /// neither applies.  The result is the end of the deterministic step
    /// sequence starting here.
    pub fn reduce(self) -> (r: Number)
        requires
            spec_sum(self) <= u64::MAX,
            reduction_halts(self),
        ensures
            spec_step(r) is None,
            exists|k: nat| r == steps(self, k),
    {
        let ghost start = self;
        let ghost k0 = choose|k: nat| spec_step(#[trigger] steps(start, k)) is None;
        let ghost mut it: nat = 0;
        let ghost mut rem: int = 1;
        let mut num = self;
        let mut done = false;
        while !done
            invariant
                num == steps(start, it),
                spec_sum(num) <= u64::MAX,
                it <= k0,
                spec_step(steps(start, k0)) is None,
                done ==> rem == 0,
                !done ==> rem == 1,
                done ==> spec_step(num) is None,
            decreases k0 - it, rem,
        {
            let ghost before = num;
            proof {
                if it == k0 {
                    assert(spec_step(num) is None);
                }
                lemma_explode_sum(num, 0);
            }
            let res = num.explode(0);
            num = res.number;
            if res.is_reduced {
                proof {
                    assert(spec_step(before) == Some(num));
                    assert(num == steps(start, it + 1));
                    it = it + 1;
                }
            } else {
                proof {
                    lemma_explode_noop(before, 0);
                    assert(num == before);
                    lemma_split_sum(num);
                }
                let (snum, did) = num.split();
                if did {
                    proof {
                        assert(spec_step(before) == Some(snum));
                        assert(snum == steps(start, it + 1));
                        it = it + 1;
                    }
                    num = snum;
                } else {
                    proof {
                        lemma_split_noop(before);
                        assert(snum == before);
                        assert(spec_step(before) is None);
                        rem = 0;
                    }
                    num = snum;
                    done = true;
                }
            }
        }
        num
    }

    /// Compute the magnitude: three times the left plus twice the right.
    pub fn magnitude(&self) -> (r: u64)
        requires
            spec_magnitude(*self) <= u64::MAX,
        ensures
            r == spec_magnitude(*self),
        decreases *self,
    {
        match self {
            Number::Regular(v) => *v,
            Number::Pair(l, r) => 3 * (*l).magnitude() + 2 * (*r).magnitude(),
        }
    }

    /// Add two numbers: pair them up and reduce.
    pub fn add(self, other: Number) -> (r: Number)
        requires
            spec_sum(self) + spec_sum(other) <= u64::MAX,
            reduction_halts(Number::Pair(Box::new(self), Box::new(other))),
        ensures
            spec_step(r) is None,
            exists|k: nat| r == steps(Number::Pair(Box::new(self), Box::new(other)), k),
    {
        Number::Pair(Box::new(self), Box::new(other)).reduce()
    }
}

} // verus!
