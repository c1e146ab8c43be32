use vstd::prelude::*;

verus! {

/// Whether the byte `sep` does not occur in `s`.
pub open spec fn free_of(s: Seq<u8>, sep: u8) -> bool {
    forall|i: int| 0 <= i < s.len() ==> #[trigger] s[i] != sep
}

/// The fields of `s` between the occurrences of `sep`, in order, as Rust's
/// `str::split` with a one-character pattern yields them: one field more than
/// `sep` occurs, empty fields included (the empty text has one empty field).
pub open spec fn split_fields(s: Seq<u8>, sep: u8) -> Seq<Seq<u8>>
    decreases s.len(),
{
    if s.len() == 0 {
        seq![Seq::<u8>::empty()]
    } else {
        let prev = split_fields(s.drop_last(), sep);
        if s.last() == sep {
            prev.push(Seq::<u8>::empty())
        } else {
            prev.update(prev.len() - 1, prev.last().push(s.last()))
        }
    }
}

/// The fields `parts` written one after another with `sep` between each two,
/// as `[T]::join` writes them.
pub open spec fn join_fields(parts: Seq<Seq<u8>>, sep: u8) -> Seq<u8>
    decreases parts.len(),
{
    if parts.len() == 0 {
        Seq::<u8>::empty()
    } else if parts.len() == 1 {
        parts[0]
    } else {
        join_fields(parts.drop_last(), sep) + seq![sep] + parts.last()
    }
}

/// Splitting always yields at least one field.
pub proof fn lemma_split_nonempty(s: Seq<u8>, sep: u8)
    ensures
        split_fields(s, sep).len() >= 1,
    decreases s.len(),
{
    if s.len() > 0 {
        lemma_split_nonempty(s.drop_last(), sep);
    }
}

/// Splitting `s` and joining the fields back with the same separator gives
/// `s` again.
pub proof fn lemma_join_split(s: Seq<u8>, sep: u8)
    ensures
        join_fields(split_fields(s, sep), sep) == s,
    decreases s.len(),
{
    if s.len() > 0 {
        let prev = split_fields(s.drop_last(), sep);
        lemma_split_nonempty(s.drop_last(), sep);
        lemma_join_split(s.drop_last(), sep);
        let parts = split_fields(s, sep);
        if s.last() == sep {
            assert(parts.drop_last() =~= prev);
            assert(s =~= s.drop_last() + seq![sep] + Seq::<u8>::empty());
        } else if prev.len() == 1 {
            assert(s =~= prev[0].push(s.last()));
        } else {
            assert(parts.drop_last() =~= prev.drop_last());
            assert(parts.last() == prev.last().push(s.last()));
            assert(join_fields(prev, sep) == join_fields(prev.drop_last(), sep) + seq![sep]
                + prev.last());
            assert(join_fields(parts, sep) == join_fields(prev.drop_last(), sep) + seq![sep]
                + parts.last());
            assert(s =~= s.drop_last().push(s.last()));
            assert(s =~= join_fields(prev.drop_last(), sep) + seq![sep] + prev.last().push(
                s.last(),
            ));
        }
    }
}

/// A field that holds no separator splits into itself alone.
proof fn lemma_split_free(s: Seq<u8>, sep: u8)
    requires
        free_of(s, sep),
    ensures
        split_fields(s, sep) == seq![s],
    decreases s.len(),
{
    if s.len() > 0 {
        assert(free_of(s.drop_last(), sep));
        lemma_split_free(s.drop_last(), sep);
        assert(s.last() == s[s.len() - 1]);
        assert(s.drop_last().push(s.last()) =~= s);
        assert(split_fields(s, sep) =~= seq![s]);
    } else {
        assert(s =~= Seq::<u8>::empty());
    }
}

/// Splitting `a`, a separator and a field `b` without separators gives the
/// fields of `a` followed by `b`.
proof fn lemma_split_append_field(a: Seq<u8>, b: Seq<u8>, sep: u8)
    requires
        free_of(b, sep),
    ensures
        split_fields(a + seq![sep] + b, sep) == split_fields(a, sep).push(b),
    decreases b.len(),
{
    let whole = a + seq![sep] + b;
    if b.len() == 0 {
        assert(whole.drop_last() =~= a);
        assert(b =~= Seq::<u8>::empty());
    } else {
        assert(free_of(b.drop_last(), sep));
        lemma_split_append_field(a, b.drop_last(), sep);
        assert(whole.drop_last() =~= a + seq![sep] + b.drop_last());
        assert(whole.last() == b[b.len() - 1]);
        assert(b.drop_last().push(b.last()) =~= b);
        assert(split_fields(whole, sep) =~= split_fields(a, sep).push(b));
    }
}

/// Joining fields that hold no separator and splitting the result gives the
/// same fields back.
pub proof fn lemma_split_join(parts: Seq<Seq<u8>>, sep: u8)
    requires
        parts.len() >= 1,
        forall|i: int| 0 <= i < parts.len() ==> free_of(#[trigger] parts[i], sep),
    ensures
        split_fields(join_fields(parts, sep), sep) == parts,
    decreases parts.len(),
{
    if parts.len() == 1 {
        lemma_split_free(parts[0], sep);
        assert(parts =~= seq![parts[0]]);
    } else {
        let init = parts.drop_last();
        assert forall|i: int| 0 <= i < init.len() implies free_of(#[trigger] init[i], sep) by {
            assert(init[i] == parts[i]);
        }
        lemma_split_join(init, sep);
        assert(free_of(parts[parts.len() - 1], sep));
        lemma_split_append_field(join_fields(init, sep), parts.last(), sep);
        assert(init.push(parts.last()) =~= parts);
    }
}

/// No field of a split holds the separator.
pub proof fn lemma_split_fields_free(s: Seq<u8>, sep: u8)
    ensures
        forall|i: int|
            0 <= i < split_fields(s, sep).len() ==> free_of(#[trigger] split_fields(s, sep)[i], sep),
    decreases s.len(),
{
    if s.len() > 0 {
        let prev = split_fields(s.drop_last(), sep);
        lemma_split_fields_free(s.drop_last(), sep);
        lemma_split_nonempty(s.drop_last(), sep);
        let f = split_fields(s, sep);
        assert forall|i: int| 0 <= i < f.len() implies free_of(#[trigger] f[i], sep) by {
            if i < prev.len() - 1 {
                assert(f[i] == prev[i]);
            } else if i == prev.len() - 1 {
                if s.last() == sep {
                    assert(f[i] == prev[i]);
                } else {
                    let g = prev.last().push(s.last());
                    assert(f[i] == g);
                    assert(free_of(prev[prev.len() - 1], sep));
                    assert forall|k: int| 0 <= k < g.len() implies #[trigger] g[k] != sep by {
                        if k < g.len() - 1 {
                            assert(g[k] == prev.last()[k]);
                        }
                    }
                }
            } else {
                assert(f[i] == Seq::<u8>::empty());
            }
        }
    }
}

/// Joining two or more fields writes the first, a separator, then the join of
/// the rest.
pub proof fn lemma_join_front(parts: Seq<Seq<u8>>, sep: u8)
    requires
        parts.len() >= 2,
    ensures
        join_fields(parts, sep) == parts[0] + seq![sep] + join_fields(parts.drop_first(), sep),
    decreases parts.len(),
{
    if parts.len() == 2 {
        assert(parts.drop_last() =~= seq![parts[0]]);
        assert(parts.drop_first() =~= seq![parts[1]]);
        assert(join_fields(seq![parts[0]], sep) == parts[0]);
        assert(join_fields(seq![parts[1]], sep) == parts[1]);
    } else {
        let init = parts.drop_last();
        lemma_join_front(init, sep);
        assert(parts.drop_first().drop_last() =~= init.drop_first());
        assert(parts.drop_first().last() == parts.last());
        assert(init[0] == parts[0]);
        assert(join_fields(parts, sep) =~= parts[0] + seq![sep] + join_fields(
            parts.drop_first(),
            sep,
        ));
    }
}

/// The first field of `s` is the text before the first `sep` (all of `s` when
/// it holds none); there is a second field exactly when `s` holds a `sep`, and
/// the fields after the first are those of the text after that `sep`.
pub proof fn lemma_first_field(s: Seq<u8>, sep: u8)
    ensures
        ({
            let f = split_fields(s, sep);
            let n = f[0].len();
            &&& f.len() >= 1
            &&& n <= s.len()
            &&& f[0] == s.take(n as int)
            &&& free_of(f[0], sep)
            &&& (n == s.len() || s[n as int] == sep)
            &&& (f.len() >= 2 <==> n < s.len())
            &&& (f.len() >= 2 ==> split_fields(s.skip(n + 1int), sep) == f.drop_first())
        }),
{
    let f = split_fields(s, sep);
    lemma_split_nonempty(s, sep);
    lemma_split_fields_free(s, sep);
    lemma_join_split(s, sep);
    assert(free_of(f[0], sep));
    if f.len() == 1 {
        assert(s == f[0]);
        assert(s.take(s.len() as int) =~= s);
    } else {
        lemma_join_front(f, sep);
        let rest = join_fields(f.drop_first(), sep);
        let n = f[0].len();
        assert(s == f[0] + seq![sep] + rest);
        assert(s.take(n as int) =~= f[0]);
        assert(s[n as int] == sep);
        assert(s.skip(n + 1int) =~= rest);
        assert forall|i: int| 0 <= i < f.drop_first().len() implies free_of(
            #[trigger] f.drop_first()[i],
            sep,
        ) by {
            assert(f.drop_first()[i] == f[i + 1]);
        }
        lemma_split_join(f.drop_first(), sep);
    }
}

/// A vector of bytes is seen the same through `deep_view` and `view`.
pub proof fn lemma_bytes_deep_view(v: Vec<u8>)
    ensures
        v.deep_view() == v@,
{
    assert(v.deep_view() =~= v@);
}

/// Whether `a` and `b` hold the same bytes.
pub fn bytes_eq(a: &[u8], b: &[u8]) -> (r: bool)
    ensures
        r == (a@ == b@),
{
    if a.len() != b.len() {
        return false;
    }
    let n = a.len();
    let mut i: usize = 0;
    while i < n
        invariant
            i <= n,
            n == a@.len(),
            n == b@.len(),
            forall|j: int| 0 <= j < i ==> a@[j] == b@[j],
        decreases n - i,
    {
        if a[i] != b[i] {
            return false;
        }
        i = i + 1;
    }
    assert(a@ =~= b@);
    true
}

/// Appends the bytes of `src` to `out`.
pub fn push_bytes(out: &mut Vec<u8>, src: &[u8])
    ensures
        final(out)@ == old(out)@ + src@,
{
    let n = src.len();
    let mut i: usize = 0;
    while i < n
        invariant
            i <= n,
            n == src@.len(),
            out@ == old(out)@ + src@.take(i as int),
        decreases n - i,
    {
        out.push(src[i]);
        assert(src@.take(i + 1) =~= src@.take(i as int).push(src@[i as int]));
        i = i + 1;
    }
    assert(src@.take(n as int) =~= src@);
}

/// A fresh vector holding the bytes of `src`.
pub fn copy_bytes(src: &[u8]) -> (r: Vec<u8>)
    ensures
        r@ == src@,
{
    let mut out: Vec<u8> = Vec::new();
    push_bytes(&mut out, src);
    out
}

/// Splits `s` at every occurrence of `sep`.
pub fn split_bytes(s: &[u8], sep: u8) -> (r: Vec<Vec<u8>>)
    ensures
        r.deep_view() == split_fields(s@, sep),
{
    let mut parts: Vec<Vec<u8>> = Vec::new();
    let mut cur: Vec<u8> = Vec::new();
    let len = s.len();
    let mut i: usize = 0;
    assert(s@.take(0) =~= Seq::<u8>::empty());
    assert(parts.deep_view().push(cur@) =~= split_fields(s@.take(0), sep));
    while i < len
        invariant
            i <= len,
            len == s@.len(),
            parts.deep_view().push(cur@) == split_fields(s@.take(i as int), sep),
        decreases len - i,
    {
        let ghost before = parts.deep_view().push(cur@);
        let b = s[i];
        assert(s@.take(i + 1).drop_last() =~= s@.take(i as int));
        assert(s@.take(i + 1).last() == b);
        if b == sep {
            let ghost old_parts = parts.deep_view();
            proof {
                lemma_bytes_deep_view(cur);
            }
            parts.push(cur);
            cur = Vec::new();
            assert(parts.deep_view() =~= old_parts.push(before.last()));
            assert(parts.deep_view().push(cur@) =~= before.push(Seq::<u8>::empty()));
        } else {
            cur.push(b);
            assert(parts.deep_view().push(cur@) =~= before.update(
                before.len() - 1,
                before.last().push(b),
            ));
        }
        i = i + 1;
    }
    assert(s@.take(len as int) =~= s@);
    let ghost old_parts = parts.deep_view();
    proof {
        lemma_bytes_deep_view(cur);
    }
    parts.push(cur);
    assert(parts.deep_view() =~= old_parts.push(cur@));
    parts
}

/// Writes the fields `parts` one after another, with `sep` between each two.
pub fn join_bytes(parts: &Vec<Vec<u8>>, sep: u8) -> (r: Vec<u8>)
    ensures
        r@ == join_fields(parts.deep_view(), sep),
{
    let mut out: Vec<u8> = Vec::new();
    let n = parts.len();
    let mut i: usize = 0;
    while i < n
        invariant
            i <= n,
            n == parts.len(),
            out@ == join_fields(parts.deep_view().take(i as int), sep),
        decreases n - i,
    {
        let ghost pv = parts.deep_view();
        let ghost before = out@;
        if i > 0 {
            out.push(sep);
        }
        let part = &parts[i];
        let m = part.len();
        let mut j: usize = 0;
        while j < m
            invariant
                j <= m,
                m == part@.len(),
                out@ == (if i > 0 { before + seq![sep] } else { before }) + part@.take(j as int),
            decreases m - j,
        {
            out.push(part[j]);
            assert(part@.take(j + 1) =~= part@.take(j as int).push(part@[j as int]));
            j = j + 1;
        }
        assert(part@.take(m as int) =~= part@);
        assert(pv.take(i + 1).drop_last() =~= pv.take(i as int));
        assert(pv[i as int] == part@);
        if i == 0 {
            assert(before =~= Seq::<u8>::empty());
            assert(pv.take(1) =~= seq![part@]);
        }
        i = i + 1;
    }
    assert(parts.deep_view().take(n as int) =~= parts.deep_view());
    out
}

} // verus!
