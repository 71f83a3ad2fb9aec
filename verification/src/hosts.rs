//! Reconciliation of a hosts file with a single generated mapping line.
//!
//! A hosts file is treated as a preamble (every line before the first line
//! that contains the marker token, owned by other tools and preserved
//! verbatim) followed by a managed block: one marker comment line and one
//! `<ipv4> <fqdn>` mapping line, both regenerated on every reconciliation.

use vstd::prelude::*;

verus! {

/// The marker token, the bytes of `miniond`. A line containing these bytes
/// as a substring delimits the managed block.
pub open spec fn marker() -> Seq<u8> {
    seq![109u8, 105u8, 110u8, 105u8, 111u8, 110u8, 100u8]
}

/// Whether `line` contains the marker token as a substring.
pub open spec fn line_has_marker(line: Seq<u8>) -> bool {
    exists|k: int| 0 <= k && k + 7 <= line.len() && #[trigger] line.subrange(k, k + 7) == marker()
}

/// Index of the first newline byte in `c`, or `c.len()` if there is none.
pub open spec fn first_nl(c: Seq<u8>) -> nat
    decreases c.len(),
{
    if c.len() == 0 {
        0
    } else if c[0] == 10u8 {
        0
    } else {
        (1 + first_nl(c.drop_first())) as nat
    }
}

/// `first_nl` points at the first newline: nothing before it is a newline,
/// and it is a newline unless the whole sequence is newline-free.
proof fn lemma_first_nl(c: Seq<u8>)
    ensures
        first_nl(c) <= c.len(),
        forall|i: int| 0 <= i < first_nl(c) ==> c[i] != 10u8,
        first_nl(c) < c.len() ==> c[first_nl(c) as int] == 10u8,
    decreases c.len(),
{
    if c.len() == 0 {
    } else if c[0] == 10u8 {
    } else {
        lemma_first_nl(c.drop_first());
        assert forall|i: int| 0 <= i < first_nl(c) implies c[i] != 10u8 by {
            if i > 0 {
                assert(c.drop_first()[i - 1] == c[i]);
            }
        }
    }
}

/// `first_nl` is the unique index with the properties of `lemma_first_nl`.
proof fn lemma_first_nl_is(c: Seq<u8>, k: int)
    requires
        0 <= k <= c.len(),
        forall|i: int| 0 <= i < k ==> c[i] != 10u8,
        k < c.len() ==> c[k] == 10u8,
    ensures
        first_nl(c) == k,
    decreases c.len(),
{
    if c.len() == 0 {
    } else if k == 0 {
    } else {
        assert(c[0] != 10u8);
        assert forall|i: int| 0 <= i < k - 1 implies c.drop_first()[i] != 10u8 by {
            assert(c.drop_first()[i] == c[i + 1]);
        }
        if k - 1 < c.drop_first().len() {
            assert(c.drop_first()[k - 1] == c[k]);
        }
        lemma_first_nl_is(c.drop_first(), k - 1);
    }
}

/// The preamble of a hosts file: every line before the first line that
/// contains the marker token, each line carried over with a terminating
/// newline (a final line that lacked one gains one). If no line contains
/// the marker, the whole content is the preamble.
pub open spec fn preamble_of(c: Seq<u8>) -> Seq<u8>
    decreases c.len(),
{
    if c.len() == 0 {
        Seq::empty()
    } else {
        let k = first_nl(c) as int;
        if k >= c.len() {
            if line_has_marker(c) {
                Seq::empty()
            } else {
                c.push(10u8)
            }
        } else {
            let line = c.subrange(0, k);
            if line_has_marker(line) {
                Seq::empty()
            } else {
                line.push(10u8) + preamble_of(c.skip(k + 1))
            }
        }
    }
}

/// A well-formed preamble: a concatenation of newline-terminated lines,
/// none of which contains the marker token.
pub open spec fn well_formed_preamble(p: Seq<u8>) -> bool
    decreases p.len(),
{
    if p.len() == 0 {
        true
    } else {
        let k = first_nl(p) as int;
        k < p.len() && !line_has_marker(p.subrange(0, k)) && well_formed_preamble(p.skip(k + 1))
    }
}

/// The text of the generated marker comment line, without its newline:
/// `# the following is generated by miniond`.
pub open spec fn marker_line_text() -> Seq<u8> {
    seq![
        35u8, 32u8, 116u8, 104u8, 101u8, 32u8, 102u8, 111u8, 108u8, 108u8, 111u8, 119u8, 105u8,
        110u8, 103u8, 32u8, 105u8, 115u8, 32u8, 103u8, 101u8, 110u8, 101u8, 114u8, 97u8, 116u8,
        101u8, 100u8, 32u8, 98u8, 121u8, 32u8, 109u8, 105u8, 110u8, 105u8, 111u8, 110u8, 100u8,
    ]
}

/// The generated marker comment line, newline included.
pub open spec fn marker_line() -> Seq<u8> {
    marker_line_text().push(10u8)
}

/// The text of the generated mapping line, without its newline:
/// `<ipv4> <fqdn>`.
pub open spec fn mapping_body(fqdn: Seq<u8>, ipv4: Seq<u8>) -> Seq<u8> {
    ipv4 + seq![32u8] + fqdn
}

/// The managed block: the marker comment line followed by the mapping line.
pub open spec fn managed_block(fqdn: Seq<u8>, ipv4: Seq<u8>) -> Seq<u8> {
    marker_line() + mapping_body(fqdn, ipv4).push(10u8)
}

/// The content of a hosts file after reconciliation: the preamble of the
/// old content, then the managed block for the given identity.
pub open spec fn reconciled(c: Seq<u8>, fqdn: Seq<u8>, ipv4: Seq<u8>) -> Seq<u8> {
    preamble_of(c) + managed_block(fqdn, ipv4)
}

/// Index of the first newline byte in `v` at or after `from`, or `v.len()`
/// if there is none.
fn find_nl(v: &Vec<u8>, from: usize) -> (k: usize)
    requires
        from <= v.len(),
    ensures
        from <= k <= v.len(),
        forall|i: int| from <= i < k ==> v@[i] != 10u8,
        k < v.len() ==> v@[k as int] == 10u8,
{
    let mut j: usize = from;
    while j < v.len()
        invariant
            from <= j <= v.len(),
            forall|i: int| from <= i < j ==> v@[i] != 10u8,
        decreases v.len() - j,
    {
        if v[j] == 10u8 {
            return j;
        }
        j = j + 1;
    }
    j
}

/// Whether the bytes of `v` in `[lo, hi)` contain the marker token.
fn range_has_marker(v: &Vec<u8>, lo: usize, hi: usize) -> (b: bool)
    requires
        lo <= hi <= v.len(),
    ensures
        b == line_has_marker(v@.subrange(lo as int, hi as int)),
{
    let ghost line = v@.subrange(lo as int, hi as int);
    if hi - lo < 7 {
        assert(!line_has_marker(line));
        return false;
    }
    let mut s: usize = lo;
    while s <= hi - 7
        invariant
            lo <= s,
            s <= hi - 6,
            lo <= hi <= v.len(),
            hi - lo >= 7,
            line == v@.subrange(lo as int, hi as int),
            forall|k: int| 0 <= k < s - lo ==> #[trigger] line.subrange(k, k + 7) != marker(),
        decreases hi - s,
    {
        if v[s] == 109u8 && v[s + 1] == 105u8 && v[s + 2] == 110u8 && v[s + 3] == 105u8
            && v[s + 4] == 111u8 && v[s + 5] == 110u8 && v[s + 6] == 100u8 {
            proof {
                let k = s - lo;
                assert(line.subrange(k, k + 7) =~= marker());
            }
            return true;
        }
        proof {
            let k = s - lo;
            assert(line.subrange(k, k + 7) != marker()) by {
                if line.subrange(k, k + 7) == marker() {
                    assert(line.subrange(k, k + 7)[0] == line[k]);
                    assert(line.subrange(k, k + 7)[1] == line[k + 1]);
                    assert(line.subrange(k, k + 7)[2] == line[k + 2]);
                    assert(line.subrange(k, k + 7)[3] == line[k + 3]);
                    assert(line.subrange(k, k + 7)[4] == line[k + 4]);
                    assert(line.subrange(k, k + 7)[5] == line[k + 5]);
                    assert(line.subrange(k, k + 7)[6] == line[k + 6]);
                }
            }
        }
        s = s + 1;
    }
    assert forall|k: int| 0 <= k && k + 7 <= line.len() implies #[trigger] line.subrange(k, k + 7)
        != marker() by {
        assert(k < s - lo);
    }
    false
}

/// Appends the bytes of `src` in `[lo, hi)` to `out`.
fn push_range(out: &mut Vec<u8>, src: &Vec<u8>, lo: usize, hi: usize)
    requires
        lo <= hi <= src.len(),
    ensures
        final(out)@ == old(out)@ + src@.subrange(lo as int, hi as int),
{
    let mut t: usize = lo;
    while t < hi
        invariant
            lo <= t <= hi <= src.len(),
            out@ == old(out)@ + src@.subrange(lo as int, t as int),
        decreases hi - t,
    {
        out.push(src[t]);
        proof {
            assert(old(out)@ + src@.subrange(lo as int, t + 1) =~= (old(out)@ + src@.subrange(
                lo as int,
                t as int,
            )).push(src@[t as int]));
        }
        t = t + 1;
    }
    proof {
        assert(out@ =~= old(out)@ + src@.subrange(lo as int, hi as int));
    }
}

/// Reads the preamble out of `content`: every line before the first line
/// containing the marker token, newline-terminated.
pub fn extract_preamble(content: &Vec<u8>) -> (p: Vec<u8>)
    ensures
        p@ == preamble_of(content@),
{
    let ghost c = content@;
    let mut out: Vec<u8> = Vec::new();
    let mut i: usize = 0;
    proof {
        assert(c.skip(0) =~= c);
        assert(Seq::<u8>::empty() + preamble_of(c) =~= preamble_of(c));
    }
    loop
        invariant_except_break
            preamble_of(c) == out@ + preamble_of(c.skip(i as int)),
        invariant
            i <= content.len(),
            c == content@,
        ensures
            out@ == preamble_of(c),
        decreases content.len() - i,
    {
        if i == content.len() {
            proof {
                assert(c.skip(i as int) =~= Seq::<u8>::empty());
                assert(out@ =~= out@ + preamble_of(c.skip(i as int)));
            }
            break;
        }
        let j = find_nl(content, i);
        let ghost rest = c.skip(i as int);
        proof {
            assert forall|t: int| 0 <= t < j - i implies rest[t] != 10u8 by {
                assert(rest[t] == c[i + t]);
            }
            if j < content.len() {
                assert(rest[j - i] == c[j as int]);
            }
            lemma_first_nl_is(rest, j - i);
        }
        let has = range_has_marker(content, i, j);
        proof {
            if j < content.len() {
                assert(rest.subrange(0, j - i) =~= c.subrange(i as int, j as int));
            } else {
                assert(rest =~= c.subrange(i as int, j as int));
            }
        }
        if has {
            proof {
                assert(preamble_of(rest) =~= Seq::<u8>::empty());
                assert(out@ =~= out@ + preamble_of(rest));
            }
            break;
        }
        let ghost out0 = out@;
        push_range(&mut out, content, i, j);
        out.push(10u8);
        proof {
            assert(out@ =~= out0 + c.subrange(i as int, j as int).push(10u8));
        }
        if j == content.len() {
            proof {
                assert(preamble_of(rest) == rest.push(10u8));
                assert(out@ =~= out0 + preamble_of(rest));
            }
            break;
        }
        proof {
            assert(rest.skip(j - i + 1) =~= c.skip(j + 1));
            assert(preamble_of(rest) == rest.subrange(0, j - i).push(10u8) + preamble_of(
                c.skip(j + 1),
            ));
            assert(out@ + preamble_of(c.skip(j + 1)) =~= preamble_of(c));
        }
        i = j + 1;
    }
    out
}

/// The preamble read out of any content is well formed: complete
/// newline-terminated lines, none containing the marker token.
pub proof fn lemma_preamble_well_formed(c: Seq<u8>)
    ensures
        well_formed_preamble(preamble_of(c)),
    decreases c.len(),
{
    lemma_first_nl(c);
    if c.len() == 0 {
    } else {
        let k = first_nl(c) as int;
        if k >= c.len() {
            if !line_has_marker(c) {
                let p = c.push(10u8);
                assert forall|i: int| 0 <= i < c.len() implies p[i] != 10u8 by {
                    assert(p[i] == c[i]);
                }
                lemma_first_nl_is(p, c.len() as int);
                assert(p.subrange(0, c.len() as int) =~= c);
                assert(p.skip(c.len() as int + 1) =~= Seq::<u8>::empty());
                assert(well_formed_preamble(Seq::<u8>::empty()));
            }
        } else {
            let line = c.subrange(0, k);
            if !line_has_marker(line) {
                lemma_preamble_well_formed(c.skip(k + 1));
                let q = preamble_of(c.skip(k + 1));
                let p = line.push(10u8) + q;
                assert forall|i: int| 0 <= i < k implies p[i] != 10u8 by {
                    assert(p[i] == line[i]);
                    assert(line[i] == c[i]);
                }
                assert(p[k] == 10u8);
                lemma_first_nl_is(p, k);
                assert(p.subrange(0, k) =~= line);
                assert(p.skip(k + 1) =~= q);
            }
        }
    }
}

/// Appending anything whose first line contains the marker token after a
/// well-formed preamble leaves the preamble exactly as it was.
proof fn lemma_preamble_of_append(p: Seq<u8>, rest: Seq<u8>)
    requires
        well_formed_preamble(p),
        rest.len() > 0,
        first_nl(rest) < rest.len() ==> line_has_marker(
            rest.subrange(0, first_nl(rest) as int),
        ),
        first_nl(rest) >= rest.len() ==> line_has_marker(rest),
    ensures
        preamble_of(p + rest) == p,
    decreases p.len(),
{
    lemma_first_nl(p);
    let c = p + rest;
    if p.len() == 0 {
        assert(c =~= rest);
        assert(p =~= Seq::<u8>::empty());
    } else {
        let k = first_nl(p) as int;
        assert forall|i: int| 0 <= i < k implies c[i] != 10u8 by {
            assert(c[i] == p[i]);
        }
        assert(c[k] == p[k]);
        lemma_first_nl_is(c, k);
        assert(c.subrange(0, k) =~= p.subrange(0, k));
        assert(c.skip(k + 1) =~= p.skip(k + 1) + rest);
        lemma_preamble_of_append(p.skip(k + 1), rest);
        assert(p.subrange(0, k).push(10u8) + p.skip(k + 1) =~= p);
    }
}

/// Shape of the managed block: its first line is the 39-byte marker
/// comment text, which contains the marker token.
proof fn lemma_managed_block_facts(fqdn: Seq<u8>, ipv4: Seq<u8>)
    ensures
        managed_block(fqdn, ipv4).len() > 40,
        first_nl(managed_block(fqdn, ipv4)) == 39,
        managed_block(fqdn, ipv4).subrange(0, 39) == marker_line_text(),
        line_has_marker(marker_line_text()),
{
    let mb = managed_block(fqdn, ipv4);
    assert forall|i: int| 0 <= i < 39 implies mb[i] != 10u8 by {
        assert(mb[i] == marker_line_text()[i]);
    }
    assert(mb[39] == 10u8);
    lemma_first_nl_is(mb, 39);
    assert(mb.subrange(0, 39) =~= marker_line_text());
    assert(marker_line_text().subrange(32int, 32int + 7) =~= marker());
}

/// Law: the preamble is preserved by reconciliation. The content standing
/// before the marker line is the same before and after.
pub proof fn lemma_preamble_preserved(c: Seq<u8>, fqdn: Seq<u8>, ipv4: Seq<u8>)
    ensures
        preamble_of(reconciled(c, fqdn, ipv4)) == preamble_of(c),
{
    lemma_preamble_well_formed(c);
    lemma_managed_block_facts(fqdn, ipv4);
    lemma_preamble_of_append(preamble_of(c), managed_block(fqdn, ipv4));
}

/// Law: reconciling a reconciled file again, with any identity, keeps the
/// original preamble and replaces the managed block alone; marker and
/// mapping lines never accumulate.
pub proof fn lemma_reconcile_replaces(
    c: Seq<u8>,
    fqdn1: Seq<u8>,
    ipv41: Seq<u8>,
    fqdn2: Seq<u8>,
    ipv42: Seq<u8>,
)
    ensures
        reconciled(reconciled(c, fqdn1, ipv41), fqdn2, ipv42) == preamble_of(c) + managed_block(
            fqdn2,
            ipv42,
        ),
{
    lemma_preamble_preserved(c, fqdn1, ipv41);
}

/// Law: reconciliation is idempotent. Applying it twice in succession with
/// the same identity produces the same content as applying it once.
pub proof fn lemma_reconcile_idempotent(c: Seq<u8>, fqdn: Seq<u8>, ipv4: Seq<u8>)
    ensures
        reconciled(reconciled(c, fqdn, ipv4), fqdn, ipv4) == reconciled(c, fqdn, ipv4),
{
    lemma_reconcile_replaces(c, fqdn, ipv4, fqdn, ipv4);
}

/// Law: content that is already a well-formed preamble is read back byte
/// for byte; reconciliation then rewrites it verbatim.
pub proof fn lemma_preamble_of_well_formed(p: Seq<u8>)
    requires
        well_formed_preamble(p),
    ensures
        preamble_of(p) == p,
    decreases p.len(),
{
    if p.len() == 0 {
        assert(p =~= Seq::<u8>::empty());
    } else {
        let k = first_nl(p) as int;
        lemma_first_nl(p);
        lemma_preamble_of_well_formed(p.skip(k + 1));
        assert(p.subrange(0, k).push(10u8) + p.skip(k + 1) =~= p);
    }
}

/// Law: reconciling empty or absent content creates exactly the marker
/// comment line followed by the mapping line, nothing else.
pub proof fn lemma_fresh_file(fqdn: Seq<u8>, ipv4: Seq<u8>)
    ensures
        reconciled(Seq::empty(), fqdn, ipv4) == managed_block(fqdn, ipv4),
{
    assert(Seq::<u8>::empty() + managed_block(fqdn, ipv4) =~= managed_block(fqdn, ipv4));
}

/// The lines of a content: maximal newline-free runs, the line terminators
/// themselves left out.
pub open spec fn lines_of(c: Seq<u8>) -> Seq<Seq<u8>>
    decreases c.len(),
{
    if c.len() == 0 {
        Seq::empty()
    } else {
        let k = first_nl(c) as int;
        if k >= c.len() {
            seq![c]
        } else {
            seq![c.subrange(0, k)] + lines_of(c.skip(k + 1))
        }
    }
}

/// How many of the given lines contain the marker token.
pub open spec fn marker_line_count(ls: Seq<Seq<u8>>) -> nat
    decreases ls.len(),
{
    if ls.len() == 0 {
        0
    } else {
        (if line_has_marker(ls.first()) {
            1nat
        } else {
            0nat
        }) + marker_line_count(ls.drop_first())
    }
}

/// Whether `s` contains no newline byte.
pub open spec fn nl_free(s: Seq<u8>) -> bool {
    forall|i: int| 0 <= i < s.len() ==> s[i] != 10u8
}

/// The lines of a well-formed preamble followed by anything are the
/// preamble's lines followed by the rest's lines.
proof fn lemma_lines_of_append(p: Seq<u8>, rest: Seq<u8>)
    requires
        well_formed_preamble(p),
        rest.len() > 0,
    ensures
        lines_of(p + rest) == lines_of(p) + lines_of(rest),
    decreases p.len(),
{
    lemma_first_nl(p);
    let c = p + rest;
    if p.len() == 0 {
        assert(c =~= rest);
        assert(lines_of(p) + lines_of(rest) =~= lines_of(rest));
    } else {
        let k = first_nl(p) as int;
        assert forall|i: int| 0 <= i < k implies c[i] != 10u8 by {
            assert(c[i] == p[i]);
        }
        assert(c[k] == p[k]);
        lemma_first_nl_is(c, k);
        assert(c.subrange(0, k) =~= p.subrange(0, k));
        assert(c.skip(k + 1) =~= p.skip(k + 1) + rest);
        lemma_lines_of_append(p.skip(k + 1), rest);
        assert(seq![p.subrange(0, k)] + (lines_of(p.skip(k + 1)) + lines_of(rest)) =~= (seq![
            p.subrange(0, k),
        ] + lines_of(p.skip(k + 1))) + lines_of(rest));
    }
}

/// The managed block is exactly two lines: the marker comment text and the
/// mapping text, provided the identity brings no newline of its own.
proof fn lemma_lines_of_managed_block(fqdn: Seq<u8>, ipv4: Seq<u8>)
    requires
        nl_free(fqdn),
        nl_free(ipv4),
    ensures
        lines_of(managed_block(fqdn, ipv4)) == seq![marker_line_text(), mapping_body(fqdn, ipv4)],
{
    let mb = managed_block(fqdn, ipv4);
    let body = mapping_body(fqdn, ipv4);
    lemma_managed_block_facts(fqdn, ipv4);
    let rest1 = mb.skip(40);
    assert(rest1 =~= body.push(10u8));
    assert forall|i: int| 0 <= i < body.len() implies rest1[i] != 10u8 by {
        assert(rest1[i] == body[i]);
        if i < ipv4.len() {
            assert(body[i] == ipv4[i]);
        } else if i > ipv4.len() {
            assert(body[i] == fqdn[i - ipv4.len() - 1]);
        }
    }
    assert(rest1[body.len() as int] == 10u8);
    lemma_first_nl_is(rest1, body.len() as int);
    assert(rest1.subrange(0, body.len() as int) =~= body);
    assert(rest1.skip(body.len() as int + 1) =~= Seq::<u8>::empty());
    assert(lines_of(Seq::<u8>::empty()) =~= Seq::<Seq<u8>>::empty());
    assert(lines_of(rest1) =~= seq![body]);
    assert(mb.subrange(0, 39) == marker_line_text());
    assert(lines_of(mb) =~= seq![marker_line_text()] + seq![body]);
    assert(seq![marker_line_text()] + seq![body] =~= seq![marker_line_text(), body]);
}

/// No line of a well-formed preamble contains the marker token.
proof fn lemma_wf_lines_marker_free(p: Seq<u8>)
    requires
        well_formed_preamble(p),
    ensures
        forall|i: int| 0 <= i < lines_of(p).len() ==> !line_has_marker(#[trigger] lines_of(p)[i]),
    decreases p.len(),
{
    lemma_first_nl(p);
    if p.len() == 0 {
    } else {
        let k = first_nl(p) as int;
        lemma_wf_lines_marker_free(p.skip(k + 1));
        assert forall|i: int| 0 <= i < lines_of(p).len() implies !line_has_marker(
            #[trigger] lines_of(p)[i],
        ) by {
            if i > 0 {
                assert(lines_of(p)[i] == lines_of(p.skip(k + 1))[i - 1]);
            }
        }
    }
}

/// Marker-line counting distributes over concatenation.
proof fn lemma_marker_line_count_concat(ls1: Seq<Seq<u8>>, ls2: Seq<Seq<u8>>)
    ensures
        marker_line_count(ls1 + ls2) == marker_line_count(ls1) + marker_line_count(ls2),
    decreases ls1.len(),
{
    if ls1.len() == 0 {
        assert(ls1 + ls2 =~= ls2);
    } else {
        assert((ls1 + ls2).drop_first() =~= ls1.drop_first() + ls2);
        assert((ls1 + ls2).first() == ls1.first());
        lemma_marker_line_count_concat(ls1.drop_first(), ls2);
    }
}

/// Lines none of which contains the marker token count zero marker lines.
proof fn lemma_marker_line_count_zero(ls: Seq<Seq<u8>>)
    requires
        forall|i: int| 0 <= i < ls.len() ==> !line_has_marker(#[trigger] ls[i]),
    ensures
        marker_line_count(ls) == 0,
    decreases ls.len(),
{
    if ls.len() == 0 {
    } else {
        assert(!line_has_marker(ls[0]));
        assert forall|i: int| 0 <= i < ls.drop_first().len() implies !line_has_marker(
            #[trigger] ls.drop_first()[i],
        ) by {
            assert(ls.drop_first()[i] == ls[i + 1]);
        }
        lemma_marker_line_count_zero(ls.drop_first());
    }
}

/// Law: after reconciliation the file holds the preamble's lines, none of
/// which contains the marker token, then exactly one marker comment line
/// and exactly one mapping line — provided the identity itself brings no
/// newline and no marker token into the mapping line.
pub proof fn lemma_single_managed_entry(c: Seq<u8>, fqdn: Seq<u8>, ipv4: Seq<u8>)
    requires
        nl_free(fqdn),
        nl_free(ipv4),
        !line_has_marker(mapping_body(fqdn, ipv4)),
    ensures
        lines_of(reconciled(c, fqdn, ipv4)) == lines_of(preamble_of(c)) + seq![
            marker_line_text(),
            mapping_body(fqdn, ipv4),
        ],
        forall|i: int|
            0 <= i < lines_of(preamble_of(c)).len() ==> !line_has_marker(
                #[trigger] lines_of(preamble_of(c))[i],
            ),
        marker_line_count(lines_of(reconciled(c, fqdn, ipv4))) == 1,
{
    let p = preamble_of(c);
    let body = mapping_body(fqdn, ipv4);
    let tail = seq![marker_line_text(), body];
    lemma_preamble_well_formed(c);
    lemma_managed_block_facts(fqdn, ipv4);
    lemma_lines_of_append(p, managed_block(fqdn, ipv4));
    lemma_lines_of_managed_block(fqdn, ipv4);
    lemma_wf_lines_marker_free(p);
    lemma_marker_line_count_concat(lines_of(p), tail);
    lemma_marker_line_count_zero(lines_of(p));
    assert(tail.drop_first() =~= seq![body]);
    assert(seq![body].drop_first() =~= Seq::<Seq<u8>>::empty());
    assert(tail.first() == marker_line_text());
    assert(seq![body].first() == body);
    assert(marker_line_count(Seq::<Seq<u8>>::empty()) == 0);
    assert(marker_line_count(seq![body]) == 0);
    assert(marker_line_count(tail) == 1);
}

/// Appends the generated marker comment line to `out`.
#[verifier::rlimit(60)]
fn push_marker_line(out: &mut Vec<u8>)
    ensures
        final(out)@ == old(out)@ + marker_line(),
{
    out.push(35u8);
    out.push(32u8);
    out.push(116u8);
    out.push(104u8);
    out.push(101u8);
    out.push(32u8);
    out.push(102u8);
    out.push(111u8);
    out.push(108u8);
    out.push(108u8);
    out.push(111u8);
    out.push(119u8);
    out.push(105u8);
    out.push(110u8);
    out.push(103u8);
    out.push(32u8);
    out.push(105u8);
    out.push(115u8);
    out.push(32u8);
    out.push(103u8);
    out.push(101u8);
    out.push(110u8);
    out.push(101u8);
    out.push(114u8);
    out.push(97u8);
    out.push(116u8);
    out.push(101u8);
    out.push(100u8);
    out.push(32u8);
    out.push(98u8);
    out.push(121u8);
    out.push(32u8);
    out.push(109u8);
    out.push(105u8);
    out.push(110u8);
    out.push(105u8);
    out.push(111u8);
    out.push(110u8);
    out.push(100u8);
    out.push(10u8);
    proof {
        assert(out@ =~= old(out)@ + marker_line());
    }
}

/// Computes the reconciled content of a hosts file: the preamble of
/// `content` followed by the marker comment line and one
/// `<ipv4> <fqdn>` mapping line for the given identity.
pub fn reconcile_content(content: &Vec<u8>, fqdn: &Vec<u8>, ipv4: &Vec<u8>) -> (out: Vec<u8>)
    ensures
        out@ == reconciled(content@, fqdn@, ipv4@),
{
    let mut out = extract_preamble(content);
    push_marker_line(&mut out);
    push_range(&mut out, ipv4, 0, ipv4.len());
    out.push(32u8);
    push_range(&mut out, fqdn, 0, fqdn.len());
    out.push(10u8);
    proof {
        assert(ipv4@.subrange(0, ipv4@.len() as int) =~= ipv4@);
        assert(fqdn@.subrange(0, fqdn@.len() as int) =~= fqdn@);
        assert(out@ =~= reconciled(content@, fqdn@, ipv4@));
    }
    out
}

} // verus!

