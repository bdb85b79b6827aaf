//! Characters and text: what the other modules need of `str` and `String`.

use vstd::prelude::*;
use vstd::string::StringExecFns;

verus! {

/// Whether `text` holds `part` as a run of consecutive characters.
pub open spec fn contains(text: Seq<char>, part: Seq<char>) -> bool {
    exists|at: int|
        0 <= at <= text.len() - part.len() && #[trigger] text.subrange(at, at + part.len()) == part
}

/// The decimal digits of `n`.
pub open spec fn decimal(n: nat) -> Seq<char>
    decreases n,
{
    let last = (48 + n % 10) as char;
    if n < 10 {
        seq![last]
    } else {
        decimal(n / 10).push(last)
    }
}

/// Whether two texts hold the same characters.
pub(crate) fn same_text(left: &str, right: &str) -> (same: bool)
    ensures
        same == (left@ == right@),
{
    let lefts = left.as_bytes();
    let rights = right.as_bytes();
    proof {
        vstd::utf8::encode_utf8_decode_utf8(left@);
        vstd::utf8::encode_utf8_decode_utf8(right@);
    }
    if lefts.len() != rights.len() {
        return false;
    }
    for i in 0..lefts.len()
        invariant
            lefts@ == vstd::utf8::encode_utf8(left@),
            rights@ == vstd::utf8::encode_utf8(right@),
            lefts@.len() == rights@.len(),
            forall|j: int| 0 <= j < i ==> lefts@[j] == rights@[j],
    {
        if lefts[i] != rights[i] {
            return false;
        }
    }
    assert(lefts@ =~= rights@);
    true
}

/// Whether `text` holds `part` as a run of consecutive characters.
pub(crate) fn contains_text(text: &str, part: &str) -> (found: bool)
    ensures
        found == contains(text@, part@),
{
    let chars = characters(text);
    let wanted = characters(part);
    if wanted.len() > chars.len() {
        return false;
    }
    let last = chars.len() - wanted.len();
    for at in 0..last
        invariant
            chars@ == text@,
            wanted@ == part@,
            last == text@.len() - part@.len(),
            forall|i: int|
                0 <= i < at ==> #[trigger] text@.subrange(i, i + part@.len()) != part@,
    {
        if stands_at(&chars, at, &wanted) {
            return true;
        }
    }
    stands_at(&chars, last, &wanted)
}

/// Whether `wanted` stands in `chars` from position `at` on.
fn stands_at(chars: &Vec<char>, at: usize, wanted: &Vec<char>) -> (yes: bool)
    requires
        at + wanted@.len() <= chars@.len(),
    ensures
        yes == (chars@.subrange(at as int, at + wanted@.len()) == wanted@),
{
    let ghost run = chars@.subrange(at as int, at + wanted@.len());
    for i in 0..wanted.len()
        invariant
            at + wanted@.len() <= chars.len(),
            run == chars@.subrange(at as int, at + wanted@.len()),
            forall|j: int| 0 <= j < i ==> run[j] == wanted@[j],
    {
        assert(run[i as int] == chars@[at + i]);
        if chars[at + i] != wanted[i] {
            return false;
        }
    }
    assert(run =~= wanted@);
    true
}

/// The decimal digits of `n`.
pub fn decimal_text(n: usize) -> (digits: String)
    ensures
        digits@ == decimal(n as nat),
    decreases n,
{
    let last = match n % 10 {
        0 => "0",
        1 => "1",
        2 => "2",
        3 => "3",
        4 => "4",
        5 => "5",
        6 => "6",
        7 => "7",
        8 => "8",
        _ => "9",
    };
    proof {
        reveal_strlit("0");
        reveal_strlit("1");
        reveal_strlit("2");
        reveal_strlit("3");
        reveal_strlit("4");
        reveal_strlit("5");
        reveal_strlit("6");
        reveal_strlit("7");
        reveal_strlit("8");
        reveal_strlit("9");
    }
    assert(last@ =~= seq![(48 + n % 10) as char]);
    if n < 10 {
        last.to_owned()
    } else {
        let mut digits = decimal_text(n / 10);
        digits.append(last);
        assert(digits@ =~= decimal(n as nat));
        digits
    }
}

/// The characters of `text`.
pub fn characters(text: &str) -> (chars: Vec<char>)
    ensures
        chars@ == text@,
{
    let mut chars: Vec<char> = Vec::new();
    for c in iter: text.chars()
        invariant
            chars@ == iter.seq().take(iter.index() as int),
            iter.seq() == text@,
    {
        chars.push(c);
    }
    assert(text@.take(text@.len() as int) == text@);
    chars
}

} // verus!
