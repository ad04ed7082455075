//! What holds of splitting texts and of numbers in texts.
use crate::text::{decimal, split, split_append, split_is_not_empty, split_separator};
use vstd::prelude::*;

verus! {

/// The texts `parts` as one text, with `c` between them.
pub open spec fn rejoined(parts: Seq<Seq<char>>, c: char) -> Seq<char>
    decreases parts.len(),
{
    if parts.len() == 0 {
        Seq::empty()
    } else if parts.len() == 1 {
        parts[0]
    } else {
        rejoined(parts.drop_last(), c).push(c) + parts.last()
    }
}

/// Splitting a text loses nothing but the separators: with them between the parts,
/// the parts are the text, and no part holds a separator.
pub proof fn split_parts_rejoin(s: Seq<char>, c: char)
    ensures
        split(s, c).len() > 0,
        rejoined(split(s, c), c) == s,
        forall|i: int| 0 <= i < split(s, c).len() ==> !(#[trigger] split(s, c)[i]).contains(c),
    decreases s.len(),
{
    split_is_not_empty(s, c);
    let parts = split(s, c);
    if s.len() == 0 {
        assert(parts =~= seq![Seq::<char>::empty()]);
        assert(rejoined(parts, c) =~= s);
    } else {
        let front = s.drop_last();
        let before = split(front, c);
        split_parts_rejoin(front, c);
        if s.last() == c {
            assert(parts.drop_last() =~= before);
            assert(front.push(c) + Seq::empty() =~= s);
            assert forall|i: int| 0 <= i < parts.len() implies !(#[trigger] parts[i]).contains(c) by {
                if i < before.len() {
                    assert(parts[i] == before[i]);
                }
            }
        } else {
            let last = before.last().push(s.last());
            assert(parts.last() == last);
            assert(parts.drop_last() =~= before.drop_last());
            if before.len() == 1 {
                assert(before[0].push(s.last()) =~= s);
            } else {
                let start = rejoined(before.drop_last(), c).push(c);
                assert((start + before.last()).push(s.last()) =~= start + last);
                assert(front.push(s.last()) =~= s);
            }
            assert forall|i: int| 0 <= i < parts.len() implies !(#[trigger] parts[i]).contains(c) by {
                if i < before.len() - 1 {
                    assert(parts[i] == before[i]);
                } else {
                    assert(!before[before.len() - 1].contains(c));
                    if last.contains(c) {
                        let k = last.index_of(c);
                        assert(before.last()[k] == c);
                    }
                }
            }
        }
    }
}

/// Splitting gives back the parts that a text was made of.
pub proof fn split_undoes_rejoining(parts: Seq<Seq<char>>, c: char)
    requires
        parts.len() > 0,
        forall|i: int| 0 <= i < parts.len() ==> !(#[trigger] parts[i]).contains(c),
    ensures
        split(rejoined(parts, c), c) == parts,
    decreases parts.len(),
{
    let last = parts.last();
    assert(!parts[parts.len() - 1].contains(c));
    assert forall|i: int| 0 <= i < last.len() implies #[trigger] last[i] != c by {
        assert(last.contains(last[i]));
    }
    let none = Seq::<char>::empty();
    if parts.len() == 1 {
        split_append(none, last, c);
        assert(none + last =~= last);
        assert(split(none, c) =~= seq![none]);
        assert(split(last, c) =~= parts);
    } else {
        let front = parts.drop_last();
        assert forall|i: int| 0 <= i < front.len() implies !(#[trigger] front[i]).contains(c) by {
            assert(parts[i] == front[i]);
        }
        split_undoes_rejoining(front, c);
        let text = rejoined(front, c);
        split_separator(text, c);
        split_append(text.push(c), last, c);
        assert(front.push(none).drop_last() =~= front);
        assert(none + last =~= last);
        assert(front.push(last) =~= parts);
    }
}

/// The first part of a text ends before the first separator.
pub proof fn first_part_ends_at_separator(a: Seq<char>, b: Seq<char>, c: char)
    requires
        !a.contains(c),
        b.len() > 0 ==> b[0] == c,
    ensures
        split(a + b, c)[0] == a,
    decreases b.len(),
{
    let none = Seq::<char>::empty();
    assert forall|i: int| 0 <= i < a.len() implies #[trigger] a[i] != c by {
        assert(a.contains(a[i]));
    }
    if b.len() == 0 {
        split_append(none, a, c);
        assert(none + a =~= a);
        assert(split(none, c) =~= seq![none]);
        assert(a + b =~= a);
    } else {
        let s = a + b;
        first_part_ends_at_separator(a, b.drop_last(), c);
        assert(s.drop_last() =~= a + b.drop_last());
        let before = split(s.drop_last(), c);
        split_is_not_empty(s.drop_last(), c);
        if b.len() > 1 && s.last() != c {
            second_part_exists(a, b.drop_last(), c);
        }
    }
}

/// A separator starts a second part.
pub proof fn second_part_exists(a: Seq<char>, b: Seq<char>, c: char)
    requires
        b.len() > 0,
        b[0] == c,
    ensures
        split(a + b, c).len() >= 2,
    decreases b.len(),
{
    let s = a + b;
    let front = b.drop_last();
    assert(s.drop_last() =~= a + front);
    split_is_not_empty(s.drop_last(), c);
    if b.len() > 1 {
        second_part_exists(a, front, c);
    }
}

/// The number that the decimal digits `digits` stand for.
pub open spec fn value_of(digits: Seq<char>) -> int
    decreases digits.len(),
{
    if digits.len() == 0 {
        0
    } else {
        10 * value_of(digits.drop_last()) + (digits.last() as int - '0' as int)
    }
}

/// Whether `digits` is the usual way to write the number `n`:
/// decimal digits that stand for it, and no zero in front.
pub open spec fn writes_number(digits: Seq<char>, n: nat) -> bool {
    &&& digits.len() > 0
    &&& forall|i: int| 0 <= i < digits.len() ==> '0' <= #[trigger] digits[i] <= '9'
    &&& value_of(digits) == n
    &&& digits[0] == '0' ==> digits.len() == 1
}

/// Numbers are written in the usual way.
pub proof fn decimal_writes_number(n: nat)
    ensures
        writes_number(decimal(n), n),
    decreases n,
{
    if n < 10 {
        assert(decimal(n).drop_last() =~= Seq::empty());
        reveal_with_fuel(value_of, 2);
    } else {
        decimal_writes_number(n / 10);
        let front = decimal(n / 10);
        let all = decimal(n);
        assert(all.drop_last() =~= front);
        assert forall|i: int| 0 <= i < all.len() implies '0' <= #[trigger] all[i] <= '9' by {
            if i < front.len() {
                assert(all[i] == front[i]);
            }
        }
        assert(all[0] == front[0]);
        if front[0] == '0' {
            assert(front.drop_last() =~= Seq::empty());
            reveal_with_fuel(value_of, 2);
        }
    }
}

} // verus!
