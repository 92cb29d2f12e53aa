//! Byte strings: fixed-width integers, comparison and concatenation.

use vstd::prelude::*;

verus! {

/// Largest value, plus one, that `width` bytes can hold.
pub open spec fn pow256(width: nat) -> nat
    decreases width,
{
    if width == 0 {
        1
    } else {
        256 * pow256((width - 1) as nat)
    }
}

/// The `width` low-order bytes of `x`, most significant first.
pub open spec fn be(x: nat, width: nat) -> Seq<u8>
    decreases width,
{
    if width == 0 {
        Seq::empty()
    } else {
        be(x / 256, (width - 1) as nat).push((x % 256) as u8)
    }
}

/// The number whose big-endian digits are `s`.
pub open spec fn from_be(s: Seq<u8>) -> nat
    decreases s.len(),
{
    if s.len() == 0 {
        0
    } else {
        256 * from_be(s.drop_last()) + s.last() as nat
    }
}

/// The `width` low-order bytes of `x`, least significant first.
pub open spec fn le(x: nat, width: nat) -> Seq<u8>
    decreases width,
{
    if width == 0 {
        Seq::empty()
    } else {
        seq![(x % 256) as u8] + le(x / 256, (width - 1) as nat)
    }
}

/// The number whose little-endian digits are `s`.
pub open spec fn from_le(s: Seq<u8>) -> nat
    decreases s.len(),
{
    if s.len() == 0 {
        0
    } else {
        s[0] as nat + 256 * from_le(s.skip(1))
    }
}

pub broadcast proof fn lemma_be_len(x: nat, width: nat)
    ensures
        #[trigger] be(x, width).len() == width,
    decreases width,
{
    if width > 0 {
        lemma_be_len(x / 256, (width - 1) as nat);
    }
}

pub broadcast proof fn lemma_le_len(x: nat, width: nat)
    ensures
        #[trigger] le(x, width).len() == width,
    decreases width,
{
    if width > 0 {
        lemma_le_len(x / 256, (width - 1) as nat);
    }
}

/// Reading back what was written gives the number, if it fitted.
pub proof fn lemma_from_be_be(x: nat, width: nat)
    requires
        x < pow256(width),
    ensures
        from_be(be(x, width)) == x,
    decreases width,
{
    if width > 0 {
        lemma_be_len(x / 256, (width - 1) as nat);
        lemma_from_be_be(x / 256, (width - 1) as nat);
        assert(be(x, width).drop_last() =~= be(x / 256, (width - 1) as nat));
    }
}

/// Every byte string is the big-endian form of the number it reads as.
pub proof fn lemma_be_from_be(s: Seq<u8>)
    ensures
        be(from_be(s), s.len()) == s,
        from_be(s) < pow256(s.len()),
    decreases s.len(),
{
    if s.len() > 0 {
        lemma_be_from_be(s.drop_last());
        assert(from_be(s) / 256 == from_be(s.drop_last()));
        assert(from_be(s) % 256 == s.last() as nat);
        assert(be(from_be(s), s.len()) =~= s.drop_last().push(s.last()));
        assert(s.drop_last().push(s.last()) =~= s);
    } else {
        assert(be(from_be(s), s.len()) =~= s);
    }
}

pub proof fn lemma_from_le_le(x: nat, width: nat)
    requires
        x < pow256(width),
    ensures
        from_le(le(x, width)) == x,
    decreases width,
{
    if width > 0 {
        lemma_le_len(x / 256, (width - 1) as nat);
        lemma_from_le_le(x / 256, (width - 1) as nat);
        assert(le(x, width).skip(1) =~= le(x / 256, (width - 1) as nat));
    }
}

pub proof fn lemma_le_from_le(s: Seq<u8>)
    ensures
        le(from_le(s), s.len()) == s,
        from_le(s) < pow256(s.len()),
    decreases s.len(),
{
    if s.len() > 0 {
        lemma_le_from_le(s.skip(1));
        assert(from_le(s) / 256 == from_le(s.skip(1)));
        assert(from_le(s) % 256 == s[0] as nat);
        assert(le(from_le(s), s.len()) =~= seq![s[0]] + s.skip(1));
        assert(seq![s[0]] + s.skip(1) =~= s);
    } else {
        assert(le(from_le(s), s.len()) =~= s);
    }
}

/// The widths in use, as plain bounds.
pub proof fn lemma_pow256_widths()
    ensures
        pow256(1) == 0x100,
        pow256(4) == 0x1_0000_0000,
        pow256(8) == 0x1_0000_0000_0000_0000,
{
    reveal_with_fuel(pow256, 9);
}

/// Appends the `width` low-order bytes of `x`, most significant first.
pub fn push_be(out: &mut Vec<u8>, x: u64, width: usize)
    ensures
        final(out)@ == old(out)@ + be(x as nat, width as nat),
    decreases width,
{
    if width > 0 {
        push_be(out, x / 256, width - 1);
        out.push((x % 256) as u8);
        assert(out@ =~= old(out)@ + be(x as nat, width as nat));
    } else {
        assert(out@ =~= old(out)@ + be(x as nat, width as nat));
    }
}

/// Reads the big-endian number in the `width` bytes that start at `at`.
pub fn read_be(data: &[u8], at: usize, width: usize) -> (x: u64)
    requires
        width <= 8,
        at + width <= data.len(),
    ensures
        x as nat == from_be(data@.subrange(at as int, at + width)),
    decreases width,
{
    if width == 0 {
        return 0;
    }
    let high: u64 = read_be(data, at, width - 1);
    let ghost s = data@.subrange(at as int, at + width);
    proof {
        assert(s.drop_last() =~= data@.subrange(at as int, at + width - 1));
        lemma_be_from_be(s);
        lemma_be_from_be(s.drop_last());
        reveal_with_fuel(pow256, 9);
    }
    high * 256 + data[at + (width - 1)] as u64
}

/// The bytes `data[from..to]`, copied out.
pub fn copy_range(data: &[u8], from: usize, to: usize) -> (out: Vec<u8>)
    requires
        from <= to <= data@.len(),
    ensures
        out@ == data@.subrange(from as int, to as int),
{
    let mut out: Vec<u8> = Vec::new();
    let mut i: usize = from;
    while i < to
        invariant
            from <= i <= to <= data@.len(),
            out@ == data@.subrange(from as int, i as int),
        decreases to - i,
    {
        out.push(data[i]);
        i += 1;
        assert(out@ =~= data@.subrange(from as int, i as int));
    }
    out
}

/// A copy of the whole of `data`.
pub fn copy_all(data: &[u8]) -> (out: Vec<u8>)
    ensures
        out@ == data@,
{
    let out = copy_range(data, 0, data.len());
    assert(data@.subrange(0, data@.len() as int) =~= data@);
    out
}

/// Appends `data` to `out`.
pub fn append(out: &mut Vec<u8>, data: &[u8])
    ensures
        final(out)@ == old(out)@ + data@,
{
    let ghost before = out@;
    let mut i: usize = 0;
    while i < data.len()
        invariant
            i <= data@.len(),
            out@ == before + data@.take(i as int),
        decreases data@.len() - i,
    {
        out.push(data[i]);
        i += 1;
        assert(out@ =~= before + data@.take(i as int));
    }
    assert(data@.take(i as int) =~= data@);
}

/// Whether the two byte strings are the same.
pub fn same(a: &[u8], b: &[u8]) -> (r: bool)
    ensures
        r == (a@ == b@),
{
    if a.len() != b.len() {
        return false;
    }
    let mut i: usize = 0;
    while i < a.len()
        invariant
            i <= a@.len() == b@.len(),
            a@.take(i as int) == b@.take(i as int),
        decreases a@.len() - i,
    {
        if a[i] != b[i] {
            return false;
        }
        i += 1;
        assert(a@.take(i as int) =~= a@.take(i - 1).push(a@[i - 1]));
        assert(b@.take(i as int) =~= b@.take(i - 1).push(b@[i - 1]));
    }
    assert(a@.take(i as int) =~= a@);
    assert(b@.take(i as int) =~= b@);
    true
}

/// Whether the two optional byte strings are the same.
pub fn same_option(a: &Option<Vec<u8>>, b: &Option<Vec<u8>>) -> (r: bool)
    ensures
        r == (opt_view(*a) == opt_view(*b)),
{
    match (a, b) {
        (Some(x), Some(y)) => same(x, y),
        (None, None) => true,
        _ => false,
    }
}

/// An optional byte string as a mathematical value.
pub open spec fn opt_view(v: Option<Vec<u8>>) -> Option<Seq<u8>> {
    match v {
        Some(x) => Some(x@),
        None => None,
    }
}

/// Lexicographic order on byte strings: `a` comes strictly before `b`.
pub open spec fn lex_lt(a: Seq<u8>, b: Seq<u8>) -> bool
    decreases a.len(),
{
    if b.len() == 0 {
        false
    } else if a.len() == 0 {
        true
    } else if a[0] != b[0] {
        a[0] < b[0]
    } else {
        lex_lt(a.skip(1), b.skip(1))
    }
}

/// `a` comes before `b`, or is `b`.
pub open spec fn lex_le(a: Seq<u8>, b: Seq<u8>) -> bool {
    a == b || lex_lt(a, b)
}

pub proof fn lemma_lex_irreflexive(a: Seq<u8>)
    ensures
        !lex_lt(a, a),
    decreases a.len(),
{
    if a.len() > 0 {
        lemma_lex_irreflexive(a.skip(1));
    }
}

pub proof fn lemma_lex_transitive(a: Seq<u8>, b: Seq<u8>, c: Seq<u8>)
    requires
        lex_lt(a, b),
        lex_lt(b, c),
    ensures
        lex_lt(a, c),
    decreases a.len(),
{
    if a.len() > 0 && b.len() > 0 && c.len() > 0 && a[0] == b[0] && b[0] == c[0] {
        lemma_lex_transitive(a.skip(1), b.skip(1), c.skip(1));
    }
}

pub proof fn lemma_lex_total(a: Seq<u8>, b: Seq<u8>)
    ensures
        lex_lt(a, b) || a == b || lex_lt(b, a),
    decreases a.len(),
{
    if a.len() == 0 || b.len() == 0 {
        assert(a.len() == 0 && b.len() == 0 ==> a =~= b);
    } else if a[0] == b[0] {
        lemma_lex_total(a.skip(1), b.skip(1));
        assert(a =~= seq![a[0]] + a.skip(1));
        assert(b =~= seq![b[0]] + b.skip(1));
    }
}

pub proof fn lemma_lex_asymmetric(a: Seq<u8>, b: Seq<u8>)
    requires
        lex_lt(a, b),
    ensures
        !lex_lt(b, a),
        a != b,
{
    lemma_lex_irreflexive(a);
    if lex_lt(b, a) {
        lemma_lex_transitive(a, b, a);
    }
}

/// Whether `a` comes strictly before `b` in lexicographic order.
pub fn less(a: &[u8], b: &[u8]) -> (r: bool)
    ensures
        r == lex_lt(a@, b@),
{
    let mut i: usize = 0;
    assert(a@.skip(0) =~= a@);
    assert(b@.skip(0) =~= b@);
    while i < a.len() && i < b.len()
        invariant
            i <= a@.len(),
            i <= b@.len(),
            lex_lt(a@, b@) == lex_lt(a@.skip(i as int), b@.skip(i as int)),
        decreases a@.len() - i,
    {
        if a[i] != b[i] {
            return a[i] < b[i];
        }
        assert(a@.skip(i as int).skip(1) =~= a@.skip(i + 1));
        assert(b@.skip(i as int).skip(1) =~= b@.skip(i + 1));
        i += 1;
    }
    i < b.len()
}

/// Whether `data` begins with `prefix`.
pub fn starts_with(data: &[u8], prefix: &[u8]) -> (r: bool)
    ensures
        r == prefix@.is_prefix_of(data@),
{
    if data.len() < prefix.len() {
        return false;
    }
    let head = copy_range(data, 0, prefix.len());
    assert(data@.subrange(0, prefix@.len() as int) == head@);
    same(&head, prefix)
}

/// Fixed-width integers: each byte is worth 256 times the one after it when the
/// most significant comes first, and the other order is the same bytes backwards.
pub proof fn law_byte_order(x: nat, width: nat, i: int)
    ensures
        be(x, width).len() == width,
        le(x, width).len() == width,
        0 <= i < width ==> be(x, width)[width - 1 - i] == le(x, width)[i],
        width > 0 ==> le(x, width)[0] as nat == x % 256,
        width > 1 ==> le(x, width)[1] as nat == (x / 256) % 256,
    decreases width,
{
    lemma_be_len(x, width);
    lemma_le_len(x, width);
    if width > 0 {
        let less = (width - 1) as nat;
        lemma_be_len(x / 256, less);
        lemma_le_len(x / 256, less);
        law_byte_order(x / 256, less, i - 1);
        if width > 1 {
            reveal_with_fuel(le, 2);
        }
    }
}

/// Byte strings are ordered as words in a dictionary: by the first byte in which
/// they differ, and where there is none the shorter comes first.
pub proof fn law_dictionary_order(a: Seq<u8>, b: Seq<u8>, at: int)
    requires
        0 <= at <= a.len(),
        at <= b.len(),
        forall|i: int| 0 <= i < at ==> #[trigger] a[i] == b[i],
    ensures
        at < a.len() && at < b.len() && a[at] != b[at] ==> (lex_lt(a, b) <==> a[at] < b[at]),
        at == a.len() ==> (lex_lt(a, b) <==> a.len() < b.len()),
        at == b.len() ==> !lex_lt(a, b),
        lex_le(a, b) <==> lex_lt(a, b) || a == b,
    decreases at,
{
    if at > 0 {
        let x = a.skip(1);
        let y = b.skip(1);
        assert(a[0] == b[0]);
        assert forall|i: int| 0 <= i < at - 1 implies #[trigger] x[i] == y[i] by {
            assert(a[i + 1] == b[i + 1]);
        }
        law_dictionary_order(x, y, at - 1);
    }
}

/// An optional byte string is seen as it is.
pub proof fn law_options_are_seen_whole(v: Option<Vec<u8>>)
    ensures
        v is None <==> opt_view(v) is None,
        v matches Some(bytes) ==> opt_view(v) == Some(bytes@),
{
}

/// Byte strings are the same where they are equal, and ordered as words in a
/// dictionary; a prefix is the front of what it starts.
pub proof fn law_byte_strings_are_told_apart(
    a: &[u8],
    b: &[u8],
    equal: bool,
    before: bool,
    front: bool,
    at: int,
)
    requires
        call_ensures(same, (a, b), equal),
        call_ensures(less, (a, b), before),
        call_ensures(starts_with, (a, b), front),
        0 <= at <= a@.len(),
        at <= b@.len(),
        forall|i: int| 0 <= i < at ==> #[trigger] a@[i] == b@[i],
    ensures
        equal <==> a@ == b@,
        at < a@.len() && at < b@.len() && a@[at] != b@[at] ==> (before <==> a@[at] < b@[at])
            && !equal && !front,
        at == a@.len() && at < b@.len() ==> before && !equal && !front,
        at == b@.len() ==> !before && front,
{
    law_dictionary_order(a@, b@, at);
    if front {
        if at < b@.len() && at < a@.len() {
            assert(a@.subrange(0, b@.len() as int)[at] == a@[at]);
        }
    }
    if at == b@.len() {
        assert(a@.subrange(0, b@.len() as int) =~= b@);
    }
}

} // verus!
