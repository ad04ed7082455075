//! Texts and lists of texts.
use vstd::prelude::*;

verus! {

/// What the texts in `v` hold.
pub open spec fn texts(v: Seq<String>) -> Seq<Seq<char>> {
    v.map_values(|s: String| s@)
}

/// Copies a list of texts.
pub fn clone_texts(v: &Vec<String>) -> (res: Vec<String>)
    ensures
        texts(res@) == texts(v@),
{
    let mut res: Vec<String> = Vec::new();
    let mut i: usize = 0;
    while i < v.len()
        invariant
            i <= v.len(),
            texts(res@) =~= texts(v@).take(i as int),
        decreases v.len() - i,
    {
        let ghost before = res@;
        res.push(v[i].clone());
        assert(texts(res@) =~= texts(before).push(v@[i as int]@));
        i += 1;
    }
    assert(texts(v@).take(i as int) =~= texts(v@));
    res
}

/// Whether `a` and `b` hold the same texts in the same order.
pub fn same_texts(a: &Vec<String>, b: &Vec<String>) -> (res: bool)
    ensures
        res == (texts(a@) == texts(b@)),
{
    if a.len() != b.len() {
        assert(texts(a@).len() != texts(b@).len());
        return false;
    }
    let mut i: usize = 0;
    while i < a.len()
        invariant
            i <= a.len(),
            a.len() == b.len(),
            forall|j: int| 0 <= j < i ==> texts(a@)[j] == #[trigger] texts(b@)[j],
        decreases a.len() - i,
    {
        if a[i] != b[i] {
            assert(texts(a@)[i as int] != texts(b@)[i as int]);
            return false;
        }
        i += 1;
    }
    assert(texts(a@) =~= texts(b@));
    true
}

/// Appends a copy of `tail` to `list`.
pub fn append_texts(list: &mut Vec<String>, tail: &Vec<String>)
    ensures
        texts(final(list)@) == texts(old(list)@) + texts(tail@),
{
    let ghost start = texts(list@);
    let mut i: usize = 0;
    while i < tail.len()
        invariant
            i <= tail.len(),
            texts(list@) =~= start + texts(tail@).take(i as int),
        decreases tail.len() - i,
    {
        let ghost before = list@;
        list.push(tail[i].clone());
        assert(texts(list@) =~= texts(before).push(tail@[i as int]@));
        i += 1;
    }
    assert(texts(tail@).take(i as int) =~= texts(tail@));
}

/// `String::push`: the character is appended to the text.
pub assume_specification[ String::push ](s: &mut String, c: char)
    ensures
        final(s)@ == old(s)@.push(c),
;

/// The characters of a text.
pub fn chars_of(s: &str) -> (res: Vec<char>)
    ensures
        res@ == s@,
{
    let mut res: Vec<char> = Vec::new();
    for c in it: s.chars()
        invariant
            it.seq() == s@,
            res@ =~= s@.take(it.index()),
    {
        res.push(c);
    }
    assert(s@.take(s@.len() as int) =~= s@);
    res
}

/// The parts of `s` between the characters `c`.
pub open spec fn split(s: Seq<char>, c: char) -> Seq<Seq<char>>
    decreases s.len(),
{
    if s.len() == 0 {
        seq![Seq::empty()]
    } else {
        let parts = split(s.drop_last(), c);
        if s.last() == c {
            parts.push(Seq::empty())
        } else {
            parts.drop_last().push(parts.last().push(s.last()))
        }
    }
}

/// Splitting gives at least one part.
pub proof fn split_is_not_empty(s: Seq<char>, c: char)
    ensures
        split(s, c).len() > 0,
    decreases s.len(),
{
    if s.len() > 0 {
        split_is_not_empty(s.drop_last(), c);
    }
}

/// Appending text without the separator extends the last part.
pub proof fn split_append(s: Seq<char>, t: Seq<char>, c: char)
    requires
        forall|i: int| 0 <= i < t.len() ==> #[trigger] t[i] != c,
    ensures
        split(s + t, c) =~= split(s, c).drop_last().push(split(s, c).last() + t),
    decreases t.len(),
{
    split_is_not_empty(s, c);
    let parts = split(s, c);
    if t.len() == 0 {
        assert(s + t =~= s);
        assert(parts.last() + t =~= parts.last());
        assert(parts.drop_last().push(parts.last()) =~= parts);
    } else {
        let front = t.drop_last();
        split_append(s, front, c);
        assert((s + t).drop_last() =~= s + front);
        assert((parts.last() + front).push(t.last()) =~= parts.last() + t);
    }
}

/// Appending the separator starts a part.
pub proof fn split_separator(s: Seq<char>, c: char)
    ensures
        split(s.push(c), c) == split(s, c).push(Seq::empty()),
{
    assert(s.push(c).drop_last() =~= s);
}

/// Splits a text into its parts between the characters `c`.
pub fn split_text(s: &str, c: char) -> (res: Vec<String>)
    ensures
        texts(res@) == split(s@, c),
{
    let chars = chars_of(s);
    let mut res: Vec<String> = Vec::new();
    let mut part = String::new();
    let mut i: usize = 0;
    proof {
        assert(s@.take(0) =~= Seq::empty());
        assert(texts(res@).push(part@) =~= split(s@.take(0), c));
    }
    while i < chars.len()
        invariant
            i <= chars.len(),
            chars@ == s@,
            texts(res@).push(part@) == split(s@.take(i as int), c),
        decreases chars.len() - i,
    {
        let ghost parts = texts(res@).push(part@);
        proof {
            assert(s@.take(i + 1).drop_last() =~= s@.take(i as int));
            assert(parts.last() == part@);
            assert(parts.drop_last() =~= texts(res@));
        }
        if chars[i] == c {
            let ghost before = res@;
            let ghost done = part@;
            res.push(part);
            part = String::new();
            assert(texts(res@) =~= texts(before).push(done));
            assert(part@ =~= Seq::empty());
        } else {
            part.push(chars[i]);
        }
        i += 1;
    }
    assert(s@.take(i as int) =~= s@);
    let ghost before = res@;
    let ghost done = part@;
    res.push(part);
    assert(texts(res@) =~= texts(before).push(done));
    res
}

/// Whether `s` holds `part` at the index `i`.
pub open spec fn holds_at(s: Seq<char>, i: int, part: Seq<char>) -> bool {
    0 <= i && i + part.len() <= s.len() && s.subrange(i, i + part.len()) == part
}

/// Whether `chars` holds `part` at the index `i`.
pub fn is_at(chars: &Vec<char>, i: usize, part: &Vec<char>) -> (res: bool)
    requires
        i <= chars@.len(),
    ensures
        res == holds_at(chars@, i as int, part@),
{
    if part.len() > chars.len() - i {
        return false;
    }
    let ghost here = chars@.subrange(i as int, i + part@.len());
    let mut k: usize = 0;
    while k < part.len()
        invariant
            k <= part.len(),
            i + part.len() <= chars.len(),
            here == chars@.subrange(i as int, i + part@.len()),
            forall|j: int| 0 <= j < k ==> here[j] == #[trigger] part@[j],
        decreases part.len() - k,
    {
        if chars[i + k] != part[k] {
            assert(here[k as int] != part@[k as int]);
            return false;
        }
        k += 1;
    }
    assert(here =~= part@);
    true
}

/// The digit of the number `d`.
pub open spec fn digit(d: int) -> char {
    (48 + d) as char
}

/// The number `n` in decimal digits.
pub open spec fn decimal(n: nat) -> Seq<char>
    decreases n,
{
    if n < 10 {
        seq![digit(n as int)]
    } else {
        decimal(n / 10).push(digit((n % 10) as int))
    }
}

/// Appends the number `n` in decimal digits to a text.
pub fn push_decimal(out: &mut String, n: u64)
    ensures
        final(out)@ == old(out)@ + decimal(n as nat),
    decreases n,
{
    let ghost before = out@;
    if n >= 10 {
        push_decimal(out, n / 10);
    }
    let c: char = (48u8 + (n % 10) as u8) as char;
    out.push(c);
    assert(out@ =~= before + decimal(n as nat));
}

} // verus!
