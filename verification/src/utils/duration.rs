//! Reading a length of time written as a number of units: digits, then a unit such as `s`,
//! `min` or `ms`, with surrounding white space ignored.

use vstd::prelude::*;
use crate::utils::dimacs::{all_digits, digits_value, is_space};

verus! {

/// Why a length of time could not be read.
#[derive(Debug, Clone, Copy, PartialEq, Eq, Structural)]
pub enum DurationError {
    /// Nothing but white space is there.
    Empty,
    /// The text does not start with a number of at most `u64::MAX`; the digits it starts with
    /// are the bytes from the first position to the second.
    InvalidNumber(usize, usize),
    /// The unit after the number, the bytes from the first position to the second, is not one
    /// of the known units.
    InvalidUnit(usize, usize),
    /// The length in seconds does not fit in a `u64`.
    TooLong,
}

/// A length of time: whole seconds and the nanoseconds beyond them.
#[derive(Debug, Clone, Copy, PartialEq, Eq, Structural)]
pub struct TimeSpan {
    pub secs: u64,
    pub nanos: u32,
}

/// The units a length of time can be written in.
#[derive(Debug, Clone, Copy, PartialEq, Eq, Structural)]
pub enum TimeUnit {
    Seconds,
    Minutes,
    Hours,
    Millis,
    Micros,
    Nanos,
}

/// Whether the bytes `c` are the UTF-8 encoding of a Unicode white-space character (those
/// that `char::is_whitespace` accepts).
pub open spec fn is_space_char(c: Seq<u8>) -> bool {
    ||| c.len() == 1 && is_space(c[0])
    ||| c.len() == 2 && c[0] == 0xC2 && (c[1] == 0x85 || c[1] == 0xA0)
    ||| c.len() == 3 && c[0] == 0xE1 && c[1] == 0x9A && c[2] == 0x80
    ||| c.len() == 3 && c[0] == 0xE2 && c[1] == 0x80 && (0x80 <= c[2] <= 0x8A || c[2] == 0xA8
        || c[2] == 0xA9 || c[2] == 0xAF)
    ||| c.len() == 3 && c[0] == 0xE2 && c[1] == 0x81 && c[2] == 0x9F
    ||| c.len() == 3 && c[0] == 0xE3 && c[1] == 0x80 && c[2] == 0x80
}

/// The length of the white-space character that `t` starts with, or 0 when there is none.
pub open spec fn space_len(t: Seq<u8>) -> int {
    if t.len() >= 1 && is_space_char(t.take(1)) {
        1
    } else if t.len() >= 2 && is_space_char(t.take(2)) {
        2
    } else if t.len() >= 3 && is_space_char(t.take(3)) {
        3
    } else {
        0
    }
}

/// The length of the white-space character that `t` ends with, or 0 when there is none.
pub open spec fn space_len_end(t: Seq<u8>) -> int {
    if t.len() >= 1 && is_space_char(t.skip(t.len() - 1)) {
        1
    } else if t.len() >= 2 && is_space_char(t.skip(t.len() - 2)) {
        2
    } else if t.len() >= 3 && is_space_char(t.skip(t.len() - 3)) {
        3
    } else {
        0
    }
}

/// `t` without the white space at its start.
pub open spec fn trim_start(t: Seq<u8>) -> Seq<u8>
    decreases t.len(),
{
    if space_len(t) > 0 {
        trim_start(t.skip(space_len(t)))
    } else {
        t
    }
}

/// `t` without the white space at its end.
pub open spec fn trim_end(t: Seq<u8>) -> Seq<u8>
    decreases t.len(),
{
    if space_len_end(t) > 0 {
        trim_end(t.take(t.len() - space_len_end(t)))
    } else {
        t
    }
}

/// Whether the bytes of `text` from `a` to `b` encode a white-space character.
fn space_bytes(text: &[u8], a: usize, b: usize) -> (r: bool)
    requires
        a <= b <= text@.len(),
        b - a <= 3,
    ensures
        r == is_space_char(text@.subrange(a as int, b as int)),
{
    let ghost c = text@.subrange(a as int, b as int);
    if b - a == 1 {
        let x = text[a];
        proof {
            assert(c[0] == x);
        }
        x == 32 || (9 <= x && x <= 13)
    } else if b - a == 2 {
        let x = text[a];
        let y = text[a + 1];
        proof {
            assert(c[0] == x && c[1] == y);
        }
        x == 0xC2 && (y == 0x85 || y == 0xA0)
    } else if b - a == 3 {
        let x = text[a];
        let y = text[a + 1];
        let z = text[a + 2];
        proof {
            assert(c[0] == x && c[1] == y && c[2] == z);
        }
        (x == 0xE1 && y == 0x9A && z == 0x80) || (x == 0xE2 && y == 0x80 && ((0x80 <= z && z <= 0x8A)
            || z == 0xA8 || z == 0xA9 || z == 0xAF)) || (x == 0xE2 && y == 0x81 && z == 0x9F) || (x
            == 0xE3 && y == 0x80 && z == 0x80)
    } else {
        false
    }
}

/// The length of the white-space character that the bytes of `text` from `a` to `b` start
/// with, or 0.
fn space_len_at(text: &[u8], a: usize, b: usize) -> (r: usize)
    requires
        a <= b <= text@.len(),
    ensures
        r == space_len(text@.subrange(a as int, b as int)),
{
    let ghost t = text@.subrange(a as int, b as int);
    proof {
        if t.len() >= 1 {
            assert(t.take(1) =~= text@.subrange(a as int, a + 1));
        }
        if t.len() >= 2 {
            assert(t.take(2) =~= text@.subrange(a as int, a + 2));
        }
        if t.len() >= 3 {
            assert(t.take(3) =~= text@.subrange(a as int, a + 3));
        }
    }
    if b - a >= 1 && space_bytes(text, a, a + 1) {
        1
    } else if b - a >= 2 && space_bytes(text, a, a + 2) {
        2
    } else if b - a >= 3 && space_bytes(text, a, a + 3) {
        3
    } else {
        0
    }
}

/// The length of the white-space character that the bytes of `text` from `a` to `b` end with,
/// or 0.
fn space_len_end_at(text: &[u8], a: usize, b: usize) -> (r: usize)
    requires
        a <= b <= text@.len(),
    ensures
        r == space_len_end(text@.subrange(a as int, b as int)),
{
    let ghost t = text@.subrange(a as int, b as int);
    proof {
        if t.len() >= 1 {
            assert(t.skip(t.len() - 1) =~= text@.subrange(b - 1, b as int));
        }
        if t.len() >= 2 {
            assert(t.skip(t.len() - 2) =~= text@.subrange(b - 2, b as int));
        }
        if t.len() >= 3 {
            assert(t.skip(t.len() - 3) =~= text@.subrange(b - 3, b as int));
        }
    }
    if b - a >= 1 && space_bytes(text, b - 1, b) {
        1
    } else if b - a >= 2 && space_bytes(text, b - 2, b) {
        2
    } else if b - a >= 3 && space_bytes(text, b - 3, b) {
        3
    } else {
        0
    }
}

/// The length of the run of digits that `t` starts with.
pub open spec fn digits_len(t: Seq<u8>) -> nat
    decreases t.len(),
{
    if t.len() > 0 && 48 <= t[0] <= 57 {
        1 + digits_len(t.drop_first())
    } else {
        0
    }
}

/// Whether the bytes of `u` are those of `w`.
pub open spec fn word(u: Seq<u8>, w: Seq<u8>) -> bool {
    u.len() == w.len() && forall|i: int| 0 <= i < u.len() ==> u[i] == w[i]
}

/// The unit that a unit name stands for: the empty name and `s`, `sec`, `secs`, `second`,
/// `seconds`; `m`, `min`, `mins`, `minute`, `minutes`; `h`, `hr`, `hrs`, `hour`, `hours`; `ms`,
/// `us` and `ns`.
pub open spec fn unit_of(u: Seq<u8>) -> Option<TimeUnit> {
    if u.len() == 0 || word(u, seq![115u8]) || word(u, seq![115u8, 101, 99]) || word(u, seq![115u8, 101, 99, 115])
        || word(u, seq![115u8, 101, 99, 111, 110, 100]) || word(u, seq![115u8, 101, 99, 111, 110, 100, 115]) {
        Some(TimeUnit::Seconds)
    } else if word(u, seq![109u8]) || word(u, seq![109u8, 105, 110]) || word(u, seq![109u8, 105, 110, 115]) || word(
        u,
        seq![109u8, 105, 110, 117, 116, 101],
    ) || word(u, seq![109u8, 105, 110, 117, 116, 101, 115]) {
        Some(TimeUnit::Minutes)
    } else if word(u, seq![104u8]) || word(u, seq![104u8, 114]) || word(u, seq![104u8, 114, 115]) || word(
        u,
        seq![104u8, 111, 117, 114],
    ) || word(u, seq![104u8, 111, 117, 114, 115]) {
        Some(TimeUnit::Hours)
    } else if word(u, seq![109u8, 115]) {
        Some(TimeUnit::Millis)
    } else if word(u, seq![117u8, 115]) {
        Some(TimeUnit::Micros)
    } else if word(u, seq![110u8, 115]) {
        Some(TimeUnit::Nanos)
    } else {
        None
    }
}

/// The length of `v` units.
pub open spec fn span_of(v: nat, unit: TimeUnit) -> (nat, nat) {
    match unit {
        TimeUnit::Seconds => (v, 0),
        TimeUnit::Minutes => (v * 60, 0),
        TimeUnit::Hours => (v * 3600, 0),
        TimeUnit::Millis => (v / 1000, (v % 1000) * 1000000),
        TimeUnit::Micros => (v / 1000000, (v % 1000000) * 1000),
        TimeUnit::Nanos => (v / 1000000000, v % 1000000000),
    }
}

/// The length of time a text gives, as whole seconds and further nanoseconds, or why it cannot
/// be read.
pub open spec fn read_duration(t: Seq<u8>) -> Result<(nat, nat), DurationError> {
    let s = trim_end(trim_start(t));
    let lead = t.len() - trim_start(t).len();
    let k = digits_len(s) as int;
    let number = s.take(k);
    let unit = s.skip(k);
    if s.len() == 0 {
        Err(DurationError::Empty)
    } else if k == 0 || digits_value(number) > u64::MAX {
        Err(DurationError::InvalidNumber(lead as usize, (lead + k) as usize))
    } else {
        match unit_of(unit) {
            None => Err(DurationError::InvalidUnit((lead + k) as usize, (lead + s.len()) as usize)),
            Some(u) => if span_of(digits_value(number), u).0 > u64::MAX {
                Err(DurationError::TooLong)
            } else {
                Ok(span_of(digits_value(number), u))
            },
        }
    }
}

proof fn lemma_digits_len(t: Seq<u8>, m: int)
    requires
        0 <= m <= t.len(),
        forall|i: int| 0 <= i < m ==> 48 <= #[trigger] t[i] <= 57,
        m == t.len() || !(48 <= t[m] <= 57),
    ensures
        digits_len(t) == m,
    decreases m,
{
    if m > 0 {
        lemma_digits_len(t.drop_first(), m - 1);
    }
}

proof fn lemma_digits_grow(d: Seq<u8>, i: int)
    requires
        0 <= i <= d.len(),
    ensures
        digits_value(d.take(i)) <= digits_value(d),
    decreases d.len() - i,
{
    if i < d.len() {
        lemma_digits_grow(d, i + 1);
        assert(d.take(i + 1).drop_last() =~= d.take(i));
    } else {
        assert(d.take(i) =~= d);
    }
}

/// Whether the bytes `text[a..b]` spell `name`.
fn spells(text: &[u8], a: usize, b: usize, name: &Vec<u8>) -> (r: bool)
    requires
        a <= b <= text@.len(),
    ensures
        r == word(text@.subrange(a as int, b as int), name@),
{
    if b - a != name.len() {
        return false;
    }
    let mut i: usize = 0;
    while i < name.len()
        invariant
            a <= b <= text@.len(),
            b - a == name@.len(),
            i <= name@.len(),
            forall|j: int| 0 <= j < i ==> text@[a + j] == name@[j],
        decreases name@.len() - i,
    {
        if text[a + i] != name[i] {
            assert(text@.subrange(a as int, b as int)[i as int] != name@[i as int]);
            return false;
        }
        i = i + 1;
    }
    true
}

/// Whether the bytes `text[a..b]` spell one of the names.
fn spells_any(text: &[u8], a: usize, b: usize, names: &Vec<Vec<u8>>) -> (r: bool)
    requires
        a <= b <= text@.len(),
    ensures
        r == exists|i: int| 0 <= i < names@.len() && word(text@.subrange(a as int, b as int), #[trigger] names@[i]@),
{
    let mut i: usize = 0;
    while i < names.len()
        invariant
            a <= b <= text@.len(),
            i <= names@.len(),
            forall|j: int| 0 <= j < i ==> !word(text@.subrange(a as int, b as int), #[trigger] names@[j]@),
        decreases names@.len() - i,
    {
        if spells(text, a, b, &names[i]) {
            return true;
        }
        i = i + 1;
    }
    false
}

/// The unit that `text[a..b]` names.
#[verifier::spinoff_prover]
fn unit_at(text: &[u8], a: usize, b: usize) -> (r: Option<TimeUnit>)
    requires
        a <= b <= text@.len(),
    ensures
        r == unit_of(text@.subrange(a as int, b as int)),
{
    let ghost u = text@.subrange(a as int, b as int);
    let seconds = vec![
        vec![115u8],
        vec![115u8, 101, 99],
        vec![115u8, 101, 99, 115],
        vec![115u8, 101, 99, 111, 110, 100],
        vec![115u8, 101, 99, 111, 110, 100, 115],
    ];
    let minutes = vec![
        vec![109u8],
        vec![109u8, 105, 110],
        vec![109u8, 105, 110, 115],
        vec![109u8, 105, 110, 117, 116, 101],
        vec![109u8, 105, 110, 117, 116, 101, 115],
    ];
    let hours = vec![
        vec![104u8],
        vec![104u8, 114],
        vec![104u8, 114, 115],
        vec![104u8, 111, 117, 114],
        vec![104u8, 111, 117, 114, 115],
    ];
    let millis = vec![vec![109u8, 115]];
    let micros = vec![vec![117u8, 115]];
    let nanos = vec![vec![110u8, 115]];
    proof {
        assert(seconds@[0]@ == seq![115u8]);
        assert(seconds@[1]@ == seq![115u8, 101, 99]);
        assert(seconds@[2]@ == seq![115u8, 101, 99, 115]);
        assert(seconds@[3]@ == seq![115u8, 101, 99, 111, 110, 100]);
        assert(seconds@[4]@ == seq![115u8, 101, 99, 111, 110, 100, 115]);
        assert(minutes@[0]@ == seq![109u8]);
        assert(minutes@[1]@ == seq![109u8, 105, 110]);
        assert(minutes@[2]@ == seq![109u8, 105, 110, 115]);
        assert(minutes@[3]@ == seq![109u8, 105, 110, 117, 116, 101]);
        assert(minutes@[4]@ == seq![109u8, 105, 110, 117, 116, 101, 115]);
        assert(hours@[0]@ == seq![104u8]);
        assert(hours@[1]@ == seq![104u8, 114]);
        assert(hours@[2]@ == seq![104u8, 114, 115]);
        assert(hours@[3]@ == seq![104u8, 111, 117, 114]);
        assert(hours@[4]@ == seq![104u8, 111, 117, 114, 115]);
        assert(millis@[0]@ == seq![109u8, 115]);
        assert(micros@[0]@ == seq![117u8, 115]);
        assert(nanos@[0]@ == seq![110u8, 115]);
    }
    let r = if a == b || spells_any(text, a, b, &seconds) {
        Some(TimeUnit::Seconds)
    } else if spells_any(text, a, b, &minutes) {
        Some(TimeUnit::Minutes)
    } else if spells_any(text, a, b, &hours) {
        Some(TimeUnit::Hours)
    } else if spells_any(text, a, b, &millis) {
        Some(TimeUnit::Millis)
    } else if spells_any(text, a, b, &micros) {
        Some(TimeUnit::Micros)
    } else if spells_any(text, a, b, &nanos) {
        Some(TimeUnit::Nanos)
    } else {
        None
    };
    proof {
        let is_sec = u.len() == 0 || word(u, seq![115u8]) || word(u, seq![115u8, 101, 99]) || word(u, seq![115u8, 101, 99, 115])
            || word(u, seq![115u8, 101, 99, 111, 110, 100]) || word(u, seq![115u8, 101, 99, 111, 110, 100, 115]);
        assert((exists|i: int| 0 <= i < seconds@.len() && word(u, #[trigger] seconds@[i]@)) == (word(u, seq![115u8])
            || word(u, seq![115u8, 101, 99]) || word(u, seq![115u8, 101, 99, 115]) || word(u, seq![115u8, 101, 99, 111, 110, 100])
            || word(u, seq![115u8, 101, 99, 111, 110, 100, 115]))) by {
            if word(u, seq![115u8]) {
                assert(word(u, seconds@[0]@));
            }
            if word(u, seq![115u8, 101, 99]) {
                assert(word(u, seconds@[1]@));
            }
            if word(u, seq![115u8, 101, 99, 115]) {
                assert(word(u, seconds@[2]@));
            }
            if word(u, seq![115u8, 101, 99, 111, 110, 100]) {
                assert(word(u, seconds@[3]@));
            }
            if word(u, seq![115u8, 101, 99, 111, 110, 100, 115]) {
                assert(word(u, seconds@[4]@));
            }
        }
        assert((exists|i: int| 0 <= i < minutes@.len() && word(u, #[trigger] minutes@[i]@)) == (word(u, seq![109u8])
            || word(u, seq![109u8, 105, 110]) || word(u, seq![109u8, 105, 110, 115]) || word(u, seq![109u8, 105, 110, 117, 116, 101])
            || word(u, seq![109u8, 105, 110, 117, 116, 101, 115]))) by {
            if word(u, seq![109u8]) {
                assert(word(u, minutes@[0]@));
            }
            if word(u, seq![109u8, 105, 110]) {
                assert(word(u, minutes@[1]@));
            }
            if word(u, seq![109u8, 105, 110, 115]) {
                assert(word(u, minutes@[2]@));
            }
            if word(u, seq![109u8, 105, 110, 117, 116, 101]) {
                assert(word(u, minutes@[3]@));
            }
            if word(u, seq![109u8, 105, 110, 117, 116, 101, 115]) {
                assert(word(u, minutes@[4]@));
            }
        }
        assert((exists|i: int| 0 <= i < hours@.len() && word(u, #[trigger] hours@[i]@)) == (word(u, seq![104u8])
            || word(u, seq![104u8, 114]) || word(u, seq![104u8, 114, 115]) || word(u, seq![104u8, 111, 117, 114])
            || word(u, seq![104u8, 111, 117, 114, 115]))) by {
            if word(u, seq![104u8]) {
                assert(word(u, hours@[0]@));
            }
            if word(u, seq![104u8, 114]) {
                assert(word(u, hours@[1]@));
            }
            if word(u, seq![104u8, 114, 115]) {
                assert(word(u, hours@[2]@));
            }
            if word(u, seq![104u8, 111, 117, 114]) {
                assert(word(u, hours@[3]@));
            }
            if word(u, seq![104u8, 111, 117, 114, 115]) {
                assert(word(u, hours@[4]@));
            }
        }
        assert((exists|i: int| 0 <= i < millis@.len() && word(u, #[trigger] millis@[i]@)) == word(u, seq![109u8, 115])) by {
            if word(u, seq![109u8, 115]) {
                assert(word(u, millis@[0]@));
            }
        }
        assert((exists|i: int| 0 <= i < micros@.len() && word(u, #[trigger] micros@[i]@)) == word(u, seq![117u8, 115])) by {
            if word(u, seq![117u8, 115]) {
                assert(word(u, micros@[0]@));
            }
        }
        assert((exists|i: int| 0 <= i < nanos@.len() && word(u, #[trigger] nanos@[i]@)) == word(u, seq![110u8, 115])) by {
            if word(u, seq![110u8, 115]) {
                assert(word(u, nanos@[0]@));
            }
        }
    }
    r
}

/// Reads a length of time: white space, digits, a unit (none meaning seconds), white space.
#[verifier::spinoff_prover]
pub fn parse_duration(text: &[u8]) -> (r: Result<TimeSpan, DurationError>)
    ensures
        match read_duration(text@) {
            Err(e) => r == Err::<TimeSpan, DurationError>(e),
            Ok((secs, nanos)) => r matches Ok(span) && span.secs == secs && span.nanos == nanos,
        },
{
    let ghost t = text@;
    let len = text.len();
    let mut a: usize = 0;
    proof {
        assert(t.skip(0) =~= t);
    }
    loop
        invariant
            a <= len == t.len(),
            t == text@,
            trim_start(t) == trim_start(t.skip(a as int)),
        ensures
            a <= len,
            trim_start(t) == t.skip(a as int),
        decreases len - a,
    {
        let k = space_len_at(text, a, len);
        proof {
            assert(t.subrange(a as int, len as int) =~= t.skip(a as int));
        }
        if k == 0 {
            break;
        }
        proof {
            assert(t.skip(a as int).skip(k as int) =~= t.skip(a + k));
        }
        a = a + k;
    }
    let mut b: usize = len;
    proof {
        assert(t.subrange(a as int, len as int) =~= t.skip(a as int));
    }
    loop
        invariant
            a <= b <= len == t.len(),
            t == text@,
            trim_start(t) == t.skip(a as int),
            trim_end(t.skip(a as int)) == trim_end(t.subrange(a as int, b as int)),
        ensures
            a <= b <= len,
            trim_end(trim_start(t)) == t.subrange(a as int, b as int),
        decreases b,
    {
        let k = space_len_end_at(text, a, b);
        if k == 0 {
            break;
        }
        proof {
            let x = t.subrange(a as int, b as int);
            assert(x.take(x.len() - k) =~= t.subrange(a as int, b - k));
        }
        b = b - k;
    }
    let ghost s = t.subrange(a as int, b as int);
    proof {
        assert(t.len() - trim_start(t).len() == a);
    }
    if a == b {
        return Err(DurationError::Empty);
    }
    let mut k: usize = a;
    let mut value: u64 = 0;
    while k < b && 48 <= text[k] && text[k] <= 57
        invariant
            a <= k <= b <= len == t.len(),
            t == text@,
            s == t.subrange(a as int, b as int),
            trim_end(trim_start(t)) == s,
            t.len() - trim_start(t).len() == a,
            a < b,
            forall|i: int| a <= i < k ==> 48 <= #[trigger] t[i] <= 57,
            value == digits_value(s.take(k - a)),
        decreases b - k,
    {
        let d = (text[k] - 48) as u64;
        proof {
            assert(s.take(k - a + 1).drop_last() =~= s.take(k - a));
            assert(s.take(k - a + 1).last() == text[k as int]);
        }
        if value > (u64::MAX - d) / 10 {
            proof {
                assert(digits_value(s.take(k - a + 1)) > u64::MAX) by (nonlinear_arith)
                    requires
                        value > (u64::MAX - d) / 10,
                        digits_value(s.take(k - a + 1)) == value * 10 + d,
                        d <= 9,
                ;
                assert(forall|i: int| a <= i < k + 1 ==> 48 <= #[trigger] t[i] <= 57);
            }
            let mut e = k + 1;
            while e < b && 48 <= text[e] && text[e] <= 57
                invariant
                    k < e <= b <= len == t.len(),
                    t == text@,
                    forall|i: int| a <= i < e ==> 48 <= #[trigger] t[i] <= 57,
                decreases b - e,
            {
                e = e + 1;
            }
            proof {
                assert forall|i: int| 0 <= i < e - a implies 48 <= #[trigger] s[i] <= 57 by {
                    assert(s[i] == t[a + i]);
                }
                if e < b {
                    assert(s[e - a] == t[e as int]);
                }
                lemma_digits_len(s, e - a);
                let number = s.take(e - a);
                assert(number.take(k - a + 1) =~= s.take(k - a + 1));
                lemma_digits_grow(number, k - a + 1);
            }
            return Err(DurationError::InvalidNumber(a, e));
        }
        value = value * 10 + d;
        k = k + 1;
    }
    proof {
        assert forall|i: int| 0 <= i < k - a implies 48 <= #[trigger] s[i] <= 57 by {
            assert(s[i] == t[a + i]);
        }
        if k < b {
            assert(s[k - a] == t[k as int]);
        }
        lemma_digits_len(s, k - a);
        assert(s.skip(k - a) =~= t.subrange(k as int, b as int));
    }
    if k == a {
        return Err(DurationError::InvalidNumber(a, k));
    }
    let unit = match unit_at(text, k, b) {
        Some(u) => u,
        None => {
            return Err(DurationError::InvalidUnit(k, b));
        },
    };
    match unit {
        TimeUnit::Seconds => Ok(TimeSpan { secs: value, nanos: 0 }),
        TimeUnit::Minutes => {
            if value > u64::MAX / 60 {
                return Err(DurationError::TooLong);
            }
            Ok(TimeSpan { secs: value * 60, nanos: 0 })
        },
        TimeUnit::Hours => {
            if value > u64::MAX / 3600 {
                return Err(DurationError::TooLong);
            }
            Ok(TimeSpan { secs: value * 3600, nanos: 0 })
        },
        TimeUnit::Millis => {
            let r = value % 1000;
            assert(r * 1000000 < 4294967296) by (nonlinear_arith)
                requires
                    r < 1000,
            ;
            Ok(TimeSpan { secs: value / 1000, nanos: (r * 1000000) as u32 })
        },
        TimeUnit::Micros => {
            let r = value % 1000000;
            assert(r * 1000 < 4294967296) by (nonlinear_arith)
                requires
                    r < 1000000,
            ;
            Ok(TimeSpan { secs: value / 1000000, nanos: (r * 1000) as u32 })
        },
        TimeUnit::Nanos => Ok(TimeSpan { secs: value / 1000000000, nanos: (value % 1000000000) as u32 }),
    }
}

} // verus!
