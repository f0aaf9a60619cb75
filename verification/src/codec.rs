//! The canonical byte format of the values the engine exchanges through
//! the working directory and the control-plane record: JSON with a fixed
//! member order, no inserted whitespace, and strings carried verbatim —
//! no escape sequences, so a string may hold any byte but a quote, a
//! backslash or a control byte. That narrowing is deliberate: it is the
//! exchange protocol this engine writes and demands, not a general JSON
//! reader, and it keeps every parser's contract exact — an input is
//! accepted if and only if it is the encoding of a well-formed value —
//! so writing a value and reading it back yields the value itself. The
//! one latitude the readers give producers is an invocation's optional
//! `parameters` member: absent, it reads as empty.

use vstd::prelude::*;
use crate::model::ok_byte;
use crate::model::ok_str;
use crate::model::ArtifactDescriptor;
use crate::model::DescView;
use crate::model::wf_desc;
use crate::model::descs_view;
use crate::model::Invocation;
use crate::model::InvView;
use crate::model::wf_inv;
use crate::model::ArtifactItem;
use crate::model::ItemView;
use crate::model::ArtifactRef;
use crate::model::WorkloadResult;
use crate::model::ResView;
use crate::model::wf_res;
use crate::model::all_local;
use crate::model::all_local_items;
use crate::model::local_desc;
use crate::model::locals_of;
use crate::model::items_view;
use crate::model::RepoConfig;
use crate::model::RepoView;
use crate::model::wf_repo;
use crate::model::wf_item;
use crate::model::ConfigEntry;
use crate::model::EntryView;
use crate::model::entries_view;

verus! {

/// `p` is an initial segment of `s`.
pub open spec fn is_prefix(p: Seq<u8>, s: Seq<u8>) -> bool {
    p.len() <= s.len() && s.subrange(0, p.len() as int) == p
}

/// A prefix pins each of its positions.
pub proof fn lemma_prefix_index(p: Seq<u8>, s: Seq<u8>, k: int)
    requires
        is_prefix(p, s),
        0 <= k < p.len(),
    ensures
        s[k] == p[k],
{
    assert(s.subrange(0, p.len() as int)[k] == p[k]);
}

/// A prefix made of two parts: the first part is a prefix, and the
/// second is a prefix of what follows the first.
pub proof fn lemma_prefix_parts(a: Seq<u8>, b: Seq<u8>, s: Seq<u8>)
    requires
        is_prefix(a + b, s),
    ensures
        is_prefix(a, s),
        is_prefix(b, s.skip(a.len() as int)),
{
    let ab = a + b;
    assert forall|k: int| 0 <= k < a.len() implies s.subrange(0, a.len() as int)[k] == a[k] by {
        assert(s.subrange(0, ab.len() as int)[k] == ab[k]);
    }
    assert(s.subrange(0, a.len() as int) =~= a);
    let t = s.skip(a.len() as int);
    assert forall|k: int| 0 <= k < b.len() implies t.subrange(0, b.len() as int)[k] == b[k] by {
        assert(s.subrange(0, ab.len() as int)[a.len() + k] == ab[a.len() + k]);
        assert(ab[a.len() + k] == b[k]);
    }
    assert(t.subrange(0, b.len() as int) =~= b);
}

/// Skipping twice is skipping once by the sum.
pub proof fn lemma_skip_skip(s: Seq<u8>, i: int, j: int)
    requires
        0 <= i,
        0 <= j,
        i + j <= s.len(),
    ensures
        s.skip(i).skip(j) == s.skip(i + j),
{
    assert(s.skip(i).skip(j) =~= s.skip(i + j));
}

/// Adjacent subranges concatenate.
pub proof fn lemma_subrange_join(s: Seq<u8>, i: int, j: int, k: int)
    requires
        0 <= i <= j <= k <= s.len(),
    ensures
        s.subrange(i, k) == s.subrange(i, j) + s.subrange(j, k),
{
    assert(s.subrange(i, k) =~= s.subrange(i, j) + s.subrange(j, k));
}

/// A subrange of `s` is a prefix of the tail of `s` at its start.
pub proof fn lemma_subrange_is_prefix(s: Seq<u8>, i: int, j: int)
    requires
        0 <= i <= j <= s.len(),
    ensures
        is_prefix(s.subrange(i, j), s.skip(i)),
{
    assert(s.skip(i).subrange(0, j - i) =~= s.subrange(i, j));
}

/// The encoding of a byte string: the bytes between two quotes. Only
/// `ok_str` strings, which need no escapes, are encoded.
pub open spec fn enc_str(s: Seq<u8>) -> Seq<u8> {
    seq![34u8] + s + seq![34u8]
}

/// How `enc_str` lays its bytes out.
pub proof fn lemma_enc_str_index(s: Seq<u8>)
    ensures
        enc_str(s).len() == s.len() + 2,
        enc_str(s)[0] == 34,
        enc_str(s)[s.len() as int + 1] == 34,
        forall|m: int| 0 < m <= s.len() ==> enc_str(s)[m] == s[m - 1],
{
}

/// Two encoded strings standing at the same place are the same string:
/// the closing quote of the shorter would land inside the longer's
/// quote-free content.
pub proof fn lemma_enc_str_prefix_unique(s1: Seq<u8>, s2: Seq<u8>, t: Seq<u8>)
    requires
        ok_str(s1),
        ok_str(s2),
        is_prefix(enc_str(s1), t),
        is_prefix(enc_str(s2), t),
    ensures
        s1 == s2,
{
    lemma_enc_str_index(s1);
    lemma_enc_str_index(s2);
    if s1.len() < s2.len() {
        lemma_prefix_index(enc_str(s1), t, s1.len() as int + 1);
        lemma_prefix_index(enc_str(s2), t, s1.len() as int + 1);
        assert(t[s1.len() as int + 1] == 34);
        assert(t[s1.len() as int + 1] == s2[s1.len() as int]);
        assert(ok_byte(s2[s1.len() as int]));
        assert(false);
    }
    if s2.len() < s1.len() {
        lemma_prefix_index(enc_str(s2), t, s2.len() as int + 1);
        lemma_prefix_index(enc_str(s1), t, s2.len() as int + 1);
        assert(t[s2.len() as int + 1] == 34);
        assert(t[s2.len() as int + 1] == s1[s2.len() as int]);
        assert(ok_byte(s1[s2.len() as int]));
        assert(false);
    }
    assert forall|k: int| 0 <= k < s1.len() implies s1[k] == s2[k] by {
        lemma_prefix_index(enc_str(s1), t, k + 1);
        lemma_prefix_index(enc_str(s2), t, k + 1);
    }
    assert(s1 =~= s2);
}

/// Append the bytes of `s` to `out`.
pub fn push_bytes(out: &mut Vec<u8>, s: &[u8])
    ensures
        final(out)@ == old(out)@ + s@,
{
    let n = s.len();
    let mut k: usize = 0;
    while k < n
        invariant
            n == s@.len(),
            0 <= k <= n,
            out@ == old(out)@ + s@.subrange(0, k as int),
        decreases n - k,
    {
        out.push(s[k]);
        proof {
            assert(old(out)@ + s@.subrange(0, k as int) + seq![s@[k as int]]
                =~= old(out)@ + s@.subrange(0, k + 1));
        }
        k += 1;
    }
    proof {
        assert(s@.subrange(0, n as int) =~= s@);
    }
}

/// Append the encoding of the byte string `s` to `out`.
pub fn push_str_enc(out: &mut Vec<u8>, s: &[u8])
    ensures
        final(out)@ == old(out)@ + enc_str(s@),
{
    out.push(34u8);
    push_bytes(out, s);
    out.push(34u8);
    proof {
        assert(old(out)@ + seq![34u8] + s@ + seq![34u8] =~= old(out)@ + enc_str(s@));
    }
}

/// Match the literal `lit` at position `i` of `b`; `None` exactly when
/// `lit` does not stand there.
pub fn expect_bytes(b: &[u8], i: usize, lit: &[u8]) -> (r: Option<usize>)
    requires
        i <= b@.len(),
    ensures
        match r {
            Some(j) => ({
                &&& j == i + lit@.len()
                &&& j <= b@.len()
                &&& b@.subrange(i as int, j as int) == lit@
            }),
            None => !is_prefix(lit@, b@.skip(i as int)),
        },
{
    let n = lit.len();
    if b.len() - i < n {
        proof {
            assert(b@.skip(i as int).len() < lit@.len());
        }
        return None;
    }
    let blen: usize = b.len();
    let mut k: usize = 0;
    while k < n
        invariant
            n == lit@.len(),
            blen == b@.len(),
            i + n <= b@.len(),
            0 <= k <= n,
            forall|m: int| 0 <= m < k ==> b@[i + m] == lit@[m],
        decreases n - k,
    {
        if b[i + k] != lit[k] {
            proof {
                if is_prefix(lit@, b@.skip(i as int)) {
                    lemma_prefix_index(lit@, b@.skip(i as int), k as int);
                    assert(b@.skip(i as int)[k as int] == b@[i + k]);
                }
            }
            return None;
        }
        k += 1;
    }
    proof {
        assert(b@.subrange(i as int, (i + n) as int) =~= lit@);
    }
    Some(i + n)
}

/// Read an encoded string at position `i` of `b`: verbatim bytes
/// between two quotes, with no escape sequences — a quote, backslash
/// or control byte inside a string is rejected, as the canonical
/// protocol demands. Returns the decoded bytes and the position after
/// the closing quote; `None` exactly when no well-formed string
/// encoding stands at `i`.
pub fn parse_string(b: &[u8], i: usize) -> (r: Option<(Vec<u8>, usize)>)
    requires
        i <= b@.len(),
    ensures
        match r {
            Some(p) => ({
                &&& ok_str(p.0@)
                &&& p.1 == i + enc_str(p.0@).len()
                &&& p.1 <= b@.len()
                &&& b@.subrange(i as int, p.1 as int) == enc_str(p.0@)
                &&& forall|s: Seq<u8>| ok_str(s) && is_prefix(enc_str(s), b@.skip(i as int))
                    ==> s == p.0@
            }),
            None => forall|s: Seq<u8>| ok_str(s)
                ==> !is_prefix(enc_str(s), b@.skip(i as int)),
        },
{
    if i >= b.len() || b[i] != 34 {
        proof {
            assert forall|s: Seq<u8>| ok_str(s) implies
                !is_prefix(enc_str(s), b@.skip(i as int)) by {
                lemma_enc_str_index(s);
                if is_prefix(enc_str(s), b@.skip(i as int)) {
                    assert(b@.skip(i as int).len() >= 2);
                    lemma_prefix_index(enc_str(s), b@.skip(i as int), 0);
                    assert(b@.skip(i as int)[0] == b@[i as int]);
                }
            }
        }
        return None;
    }
    let mut j: usize = i + 1;
    let mut out: Vec<u8> = Vec::new();
    loop
        invariant
            i + 1 <= j <= b@.len(),
            i < b@.len(),
            b@[i as int] == 34,
            out@ == b@.subrange(i + 1, j as int),
            forall|k: int| i + 1 <= k < j ==> ok_byte(#[trigger] b@[k]),
        decreases b@.len() - j,
    {
        if j >= b.len() {
            proof {
                assert forall|s: Seq<u8>| ok_str(s) implies
                    !is_prefix(enc_str(s), b@.skip(i as int)) by {
                    lemma_enc_str_index(s);
                    if is_prefix(enc_str(s), b@.skip(i as int)) {
                        let q = i + 1 + s.len();
                        assert(q + 1 <= b@.len());
                        lemma_prefix_index(enc_str(s), b@.skip(i as int), s.len() as int + 1);
                        assert(b@.skip(i as int)[s.len() as int + 1] == b@[q]);
                        assert(b@[q] == 34);
                        assert(i + 1 <= q < j);
                        assert(ok_byte(b@[q]));
                    }
                }
            }
            return None;
        }
        let c = b[j];
        if c == 34 {
            proof {
                lemma_enc_str_index(out@);
                assert forall|m: int| 0 <= m < j + 1 - i implies
                    #[trigger] b@.subrange(i as int, j + 1)[m] == enc_str(out@)[m] by {
                    if 1 <= m && m <= j - i - 1 {
                        assert(enc_str(out@)[m] == out@[m - 1]);
                        assert(out@[m - 1] == b@[i + m]);
                    }
                }
                assert(b@.subrange(i as int, j + 1) =~= enc_str(out@));
                lemma_subrange_is_prefix(b@, i as int, j + 1);
                assert forall|s: Seq<u8>| ok_str(s) && is_prefix(enc_str(s), b@.skip(i as int))
                    implies s == out@ by {
                    lemma_enc_str_prefix_unique(s, out@, b@.skip(i as int));
                }
            }
            return Some((out, j + 1));
        }
        if c == 92 || c < 32 {
            proof {
                assert forall|s: Seq<u8>| ok_str(s) implies
                    !is_prefix(enc_str(s), b@.skip(i as int)) by {
                    lemma_enc_str_index(s);
                    if is_prefix(enc_str(s), b@.skip(i as int)) {
                        let q = i + 1 + s.len();
                        assert(q + 1 <= b@.len());
                        lemma_prefix_index(enc_str(s), b@.skip(i as int), s.len() as int + 1);
                        assert(b@[q] == 34);
                        if j < q {
                            lemma_prefix_index(enc_str(s), b@.skip(i as int), j - i);
                            assert(b@.skip(i as int)[j - i] == b@[j as int]);
                            assert(enc_str(s)[j - i] == s[j - i - 1]);
                            assert(ok_byte(s[j - i - 1]));
                        } else if j == q {
                            assert(b@[j as int] == 34);
                        } else {
                            assert(i + 1 <= q < j);
                            assert(ok_byte(b@[q]));
                        }
                    }
                }
            }
            return None;
        }
        out.push(c);
        proof {
            assert(b@.subrange(i + 1, j as int) + seq![b@[j as int]] =~= b@.subrange(i + 1, j + 1));
        }
        j += 1;
    }
}

/// The byte sequence `{"name":`.
pub open spec fn s_desc_head() -> Seq<u8> {
    seq![123u8, 34u8, 110u8, 97u8, 109u8, 101u8, 34u8, 58u8]
}

/// The bytes of `{"name":`, as a vector.
pub fn lit_desc_head() -> (v: Vec<u8>)
    ensures
        v@ == s_desc_head(),
{
    let mut v: Vec<u8> = Vec::new();
    v.push(123);
    v.push(34);
    v.push(110);
    v.push(97);
    v.push(109);
    v.push(101);
    v.push(34);
    v.push(58);
    proof {
        assert(v@ =~= s_desc_head());
    }
    v
}

/// The byte sequence `,"path":`.
pub open spec fn s_desc_mid() -> Seq<u8> {
    seq![44u8, 34u8, 112u8, 97u8, 116u8, 104u8, 34u8, 58u8]
}

/// The bytes of `,"path":`, as a vector.
pub fn lit_desc_mid() -> (v: Vec<u8>)
    ensures
        v@ == s_desc_mid(),
{
    let mut v: Vec<u8> = Vec::new();
    v.push(44);
    v.push(34);
    v.push(112);
    v.push(97);
    v.push(116);
    v.push(104);
    v.push(34);
    v.push(58);
    proof {
        assert(v@ =~= s_desc_mid());
    }
    v
}

/// The byte sequence `,"url":`.
pub open spec fn s_ref_mid() -> Seq<u8> {
    seq![44u8, 34u8, 117u8, 114u8, 108u8, 34u8, 58u8]
}

/// The bytes of `,"url":`, as a vector.
pub fn lit_ref_mid() -> (v: Vec<u8>)
    ensures
        v@ == s_ref_mid(),
{
    let mut v: Vec<u8> = Vec::new();
    v.push(44);
    v.push(34);
    v.push(117);
    v.push(114);
    v.push(108);
    v.push(34);
    v.push(58);
    proof {
        assert(v@ =~= s_ref_mid());
    }
    v
}

/// The byte sequence `}`.
pub open spec fn s_obj_end() -> Seq<u8> {
    seq![125u8]
}

/// The bytes of `}`, as a vector.
pub fn lit_obj_end() -> (v: Vec<u8>)
    ensures
        v@ == s_obj_end(),
{
    let mut v: Vec<u8> = Vec::new();
    v.push(125);
    proof {
        assert(v@ =~= s_obj_end());
    }
    v
}

/// The byte sequence `{"workflow_name":`.
pub open spec fn s_inv_head() -> Seq<u8> {
    seq![123u8, 34u8, 119u8, 111u8, 114u8, 107u8, 102u8, 108u8, 111u8, 119u8, 95u8, 110u8, 97u8, 109u8, 101u8, 34u8, 58u8]
}

/// The bytes of `{"workflow_name":`, as a vector.
pub fn lit_inv_head() -> (v: Vec<u8>)
    ensures
        v@ == s_inv_head(),
{
    let mut v: Vec<u8> = Vec::new();
    v.push(123);
    v.push(34);
    v.push(119);
    v.push(111);
    v.push(114);
    v.push(107);
    v.push(102);
    v.push(108);
    v.push(111);
    v.push(119);
    v.push(95);
    v.push(110);
    v.push(97);
    v.push(109);
    v.push(101);
    v.push(34);
    v.push(58);
    proof {
        assert(v@ =~= s_inv_head());
    }
    v
}

/// The byte sequence `,"artifacts":`.
pub open spec fn s_inv_arts() -> Seq<u8> {
    seq![44u8, 34u8, 97u8, 114u8, 116u8, 105u8, 102u8, 97u8, 99u8, 116u8, 115u8, 34u8, 58u8]
}

/// The bytes of `,"artifacts":`, as a vector.
pub fn lit_inv_arts() -> (v: Vec<u8>)
    ensures
        v@ == s_inv_arts(),
{
    let mut v: Vec<u8> = Vec::new();
    v.push(44);
    v.push(34);
    v.push(97);
    v.push(114);
    v.push(116);
    v.push(105);
    v.push(102);
    v.push(97);
    v.push(99);
    v.push(116);
    v.push(115);
    v.push(34);
    v.push(58);
    proof {
        assert(v@ =~= s_inv_arts());
    }
    v
}

/// The byte sequence `,"parameters":`.
pub open spec fn s_inv_params() -> Seq<u8> {
    seq![44u8, 34u8, 112u8, 97u8, 114u8, 97u8, 109u8, 101u8, 116u8, 101u8, 114u8, 115u8, 34u8, 58u8]
}

/// The bytes of `,"parameters":`, as a vector.
pub fn lit_inv_params() -> (v: Vec<u8>)
    ensures
        v@ == s_inv_params(),
{
    let mut v: Vec<u8> = Vec::new();
    v.push(44);
    v.push(34);
    v.push(112);
    v.push(97);
    v.push(114);
    v.push(97);
    v.push(109);
    v.push(101);
    v.push(116);
    v.push(101);
    v.push(114);
    v.push(115);
    v.push(34);
    v.push(58);
    proof {
        assert(v@ =~= s_inv_params());
    }
    v
}

/// The byte sequence `{"outputs":{"artifacts":`.
pub open spec fn s_res_head() -> Seq<u8> {
    seq![123u8, 34u8, 111u8, 117u8, 116u8, 112u8, 117u8, 116u8, 115u8, 34u8, 58u8, 123u8, 34u8, 97u8, 114u8, 116u8, 105u8, 102u8, 97u8, 99u8, 116u8, 115u8, 34u8, 58u8]
}

/// The bytes of `{"outputs":{"artifacts":`, as a vector.
pub fn lit_res_head() -> (v: Vec<u8>)
    ensures
        v@ == s_res_head(),
{
    let mut v: Vec<u8> = Vec::new();
    v.push(123);
    v.push(34);
    v.push(111);
    v.push(117);
    v.push(116);
    v.push(112);
    v.push(117);
    v.push(116);
    v.push(115);
    v.push(34);
    v.push(58);
    v.push(123);
    v.push(34);
    v.push(97);
    v.push(114);
    v.push(116);
    v.push(105);
    v.push(102);
    v.push(97);
    v.push(99);
    v.push(116);
    v.push(115);
    v.push(34);
    v.push(58);
    proof {
        assert(v@ =~= s_res_head());
    }
    v
}

/// The byte sequence `},"payload":`.
pub open spec fn s_res_payload() -> Seq<u8> {
    seq![125u8, 44u8, 34u8, 112u8, 97u8, 121u8, 108u8, 111u8, 97u8, 100u8, 34u8, 58u8]
}

/// The bytes of `},"payload":`, as a vector.
pub fn lit_res_payload() -> (v: Vec<u8>)
    ensures
        v@ == s_res_payload(),
{
    let mut v: Vec<u8> = Vec::new();
    v.push(125);
    v.push(44);
    v.push(34);
    v.push(112);
    v.push(97);
    v.push(121);
    v.push(108);
    v.push(111);
    v.push(97);
    v.push(100);
    v.push(34);
    v.push(58);
    proof {
        assert(v@ =~= s_res_payload());
    }
    v
}

/// The byte sequence `{"endpoint":`.
pub open spec fn s_repo_head() -> Seq<u8> {
    seq![123u8, 34u8, 101u8, 110u8, 100u8, 112u8, 111u8, 105u8, 110u8, 116u8, 34u8, 58u8]
}

/// The bytes of `{"endpoint":`, as a vector.
pub fn lit_repo_head() -> (v: Vec<u8>)
    ensures
        v@ == s_repo_head(),
{
    let mut v: Vec<u8> = Vec::new();
    v.push(123);
    v.push(34);
    v.push(101);
    v.push(110);
    v.push(100);
    v.push(112);
    v.push(111);
    v.push(105);
    v.push(110);
    v.push(116);
    v.push(34);
    v.push(58);
    proof {
        assert(v@ =~= s_repo_head());
    }
    v
}

/// The byte sequence `,"bucket":`.
pub open spec fn s_repo_mid() -> Seq<u8> {
    seq![44u8, 34u8, 98u8, 117u8, 99u8, 107u8, 101u8, 116u8, 34u8, 58u8]
}

/// The bytes of `,"bucket":`, as a vector.
pub fn lit_repo_mid() -> (v: Vec<u8>)
    ensures
        v@ == s_repo_mid(),
{
    let mut v: Vec<u8> = Vec::new();
    v.push(44);
    v.push(34);
    v.push(98);
    v.push(117);
    v.push(99);
    v.push(107);
    v.push(101);
    v.push(116);
    v.push(34);
    v.push(58);
    proof {
        assert(v@ =~= s_repo_mid());
    }
    v
}


/// The encoding of an artifact descriptor: an object with `name` and
/// `path` members in that order.
pub open spec fn enc_desc(d: DescView) -> Seq<u8> {
    s_desc_head() + (enc_str(d.name) + (s_desc_mid() + (enc_str(d.path) + s_obj_end())))
}

/// Where each stage of a descriptor encoding stands, for a sequence it
/// is a prefix of.
pub proof fn lemma_desc_stages(d: DescView, t: Seq<u8>)
    requires
        is_prefix(enc_desc(d), t),
    ensures
        is_prefix(s_desc_head(), t),
        is_prefix(enc_str(d.name), t.skip(s_desc_head().len() as int)),
        is_prefix(
            s_desc_mid(),
            t.skip((s_desc_head().len() + enc_str(d.name).len()) as int),
        ),
        is_prefix(
            enc_str(d.path),
            t.skip((s_desc_head().len() + enc_str(d.name).len() + s_desc_mid().len()) as int),
        ),
        is_prefix(
            s_obj_end(),
            t.skip(
                (s_desc_head().len() + enc_str(d.name).len() + s_desc_mid().len()
                    + enc_str(d.path).len()) as int,
            ),
        ),
{
    let o1 = s_desc_head().len() as int;
    let o2 = o1 + enc_str(d.name).len();
    let o3 = o2 + s_desc_mid().len();
    let o4 = o3 + enc_str(d.path).len();
    lemma_prefix_parts(s_desc_head(), enc_str(d.name) + (s_desc_mid() + (enc_str(d.path) + s_obj_end())), t);
    lemma_prefix_parts(enc_str(d.name), s_desc_mid() + (enc_str(d.path) + s_obj_end()), t.skip(o1));
    lemma_skip_skip(t, o1, enc_str(d.name).len() as int);
    lemma_prefix_parts(s_desc_mid(), enc_str(d.path) + s_obj_end(), t.skip(o2));
    lemma_skip_skip(t, o2, s_desc_mid().len() as int);
    lemma_prefix_parts(enc_str(d.path), s_obj_end(), t.skip(o3));
    lemma_skip_skip(t, o3, enc_str(d.path).len() as int);
}

/// Read an artifact descriptor at position `i` of `b`; `None` exactly
/// when no well-formed descriptor encoding stands at `i`.
pub fn parse_desc(b: &[u8], i: usize) -> (r: Option<(ArtifactDescriptor, usize)>)
    requires
        i <= b@.len(),
    ensures
        match r {
            Some(p) => ({
                &&& wf_desc(p.0@)
                &&& p.1 == i + enc_desc(p.0@).len()
                &&& p.1 <= b@.len()
                &&& b@.subrange(i as int, p.1 as int) == enc_desc(p.0@)
                &&& forall|d: DescView| wf_desc(d) && is_prefix(enc_desc(d), b@.skip(i as int))
                    ==> d == p.0@
            }),
            None => forall|d: DescView| wf_desc(d)
                ==> !is_prefix(enc_desc(d), b@.skip(i as int)),
        },
{
    let ghost t = b@.skip(i as int);
    let l1 = lit_desc_head();
    let j1 = match expect_bytes(b, i, l1.as_slice()) {
        Some(j) => j,
        None => {
            proof {
                assert forall|d: DescView| wf_desc(d) implies !is_prefix(enc_desc(d), t) by {
                    if is_prefix(enc_desc(d), t) {
                        lemma_desc_stages(d, t);
                    }
                }
            }
            return None;
        },
    };
    let (name, j2) = match parse_string(b, j1) {
        Some(p) => p,
        None => {
            proof {
                assert forall|d: DescView| wf_desc(d) implies !is_prefix(enc_desc(d), t) by {
                    if is_prefix(enc_desc(d), t) {
                        lemma_desc_stages(d, t);
                        lemma_skip_skip(b@, i as int, s_desc_head().len() as int);
                    }
                }
            }
            return None;
        },
    };
    let l2 = lit_desc_mid();
    let j3 = match expect_bytes(b, j2, l2.as_slice()) {
        Some(j) => j,
        None => {
            proof {
                assert forall|d: DescView| wf_desc(d) implies !is_prefix(enc_desc(d), t) by {
                    if is_prefix(enc_desc(d), t) {
                        lemma_desc_stages(d, t);
                        lemma_skip_skip(b@, i as int, s_desc_head().len() as int);
                        assert(d.name == name@);
                        lemma_skip_skip(b@, i as int, (s_desc_head().len() + enc_str(d.name).len()) as int);
                    }
                }
            }
            return None;
        },
    };
    let (path, j4) = match parse_string(b, j3) {
        Some(p) => p,
        None => {
            proof {
                assert forall|d: DescView| wf_desc(d) implies !is_prefix(enc_desc(d), t) by {
                    if is_prefix(enc_desc(d), t) {
                        lemma_desc_stages(d, t);
                        lemma_skip_skip(b@, i as int, s_desc_head().len() as int);
                        assert(d.name == name@);
                        lemma_skip_skip(
                            b@,
                            i as int,
                            (s_desc_head().len() + enc_str(d.name).len() + s_desc_mid().len()) as int,
                        );
                    }
                }
            }
            return None;
        },
    };
    let l3 = lit_obj_end();
    let j5 = match expect_bytes(b, j4, l3.as_slice()) {
        Some(j) => j,
        None => {
            proof {
                assert forall|d: DescView| wf_desc(d) implies !is_prefix(enc_desc(d), t) by {
                    if is_prefix(enc_desc(d), t) {
                        lemma_desc_stages(d, t);
                        lemma_skip_skip(b@, i as int, s_desc_head().len() as int);
                        assert(d.name == name@);
                        lemma_skip_skip(
                            b@,
                            i as int,
                            (s_desc_head().len() + enc_str(d.name).len() + s_desc_mid().len()) as int,
                        );
                        assert(d.path == path@);
                        lemma_skip_skip(
                            b@,
                            i as int,
                            (s_desc_head().len() + enc_str(d.name).len() + s_desc_mid().len()
                                + enc_str(d.path).len()) as int,
                        );
                    }
                }
            }
            return None;
        },
    };
    let d = ArtifactDescriptor { name, path };
    proof {
        lemma_subrange_join(b@, j3 as int, j4 as int, j5 as int);
        lemma_subrange_join(b@, j2 as int, j3 as int, j5 as int);
        lemma_subrange_join(b@, j1 as int, j2 as int, j5 as int);
        lemma_subrange_join(b@, i as int, j1 as int, j5 as int);
        assert(b@.subrange(i as int, j5 as int) == enc_desc(d@));
        lemma_subrange_is_prefix(b@, i as int, j5 as int);
        assert forall|dv: DescView| wf_desc(dv) && is_prefix(enc_desc(dv), t) implies dv == d@ by {
            lemma_desc_stages(dv, t);
            lemma_skip_skip(b@, i as int, s_desc_head().len() as int);
            assert(dv.name == name@);
            lemma_skip_skip(
                b@,
                i as int,
                (s_desc_head().len() + enc_str(dv.name).len() + s_desc_mid().len()) as int,
            );
            assert(dv.path == path@);
        }
    }
    Some((d, j5))
}


/// All descriptors of a list are well formed.
pub open spec fn wf_descs(ds: Seq<DescView>) -> bool {
    forall|k: int| 0 <= k < ds.len() ==> wf_desc(#[trigger] ds[k])
}

/// The items of a descriptor list, comma-separated, with the closing
/// bracket; the form a list body takes right after the opening bracket.
pub open spec fn items_enc(ds: Seq<DescView>) -> Seq<u8>
    decreases ds.len(),
{
    if ds.len() == 0 {
        seq![93u8]
    } else {
        enc_desc(ds[0]) + items_after(ds.drop_first())
    }
}

/// What follows a parsed item: the closing bracket, or a comma and the
/// remaining items.
pub open spec fn items_after(ds: Seq<DescView>) -> Seq<u8>
    decreases ds.len(),
{
    if ds.len() == 0 {
        seq![93u8]
    } else {
        seq![44u8] + (enc_desc(ds[0]) + items_after(ds.drop_first()))
    }
}

/// The comma-separated items without brackets.
pub open spec fn items_part(ds: Seq<DescView>) -> Seq<u8>
    decreases ds.len(),
{
    if ds.len() == 0 {
        Seq::empty()
    } else if ds.len() == 1 {
        enc_desc(ds[0])
    } else {
        enc_desc(ds[0]) + (seq![44u8] + items_part(ds.drop_first()))
    }
}

/// The encoding of a whole descriptor list.
pub open spec fn enc_desc_list(ds: Seq<DescView>) -> Seq<u8> {
    seq![91u8] + items_enc(ds)
}

/// Appending one item to the comma-separated form.
pub proof fn lemma_items_part_snoc(ds: Seq<DescView>, d: DescView)
    ensures
        items_part(ds.push(d)) == if ds.len() == 0 {
            enc_desc(d)
        } else {
            items_part(ds) + (seq![44u8] + enc_desc(d))
        },
    decreases ds.len(),
{
    if ds.len() == 0 {
        assert(ds.push(d).len() == 1);
        assert(ds.push(d)[0] == d);
    } else {
        lemma_items_part_snoc(ds.drop_first(), d);
        assert(ds.push(d).drop_first() =~= ds.drop_first().push(d));
        assert(ds.push(d)[0] == ds[0]);
        if ds.len() == 1 {
            assert(items_part(ds.push(d)) == enc_desc(ds[0]) + (seq![44u8] + enc_desc(d)));
        } else {
            assert(enc_desc(ds[0]) + (seq![44u8] + (items_part(ds.drop_first()) + (seq![44u8]
                + enc_desc(d)))) =~= (enc_desc(ds[0]) + (seq![44u8] + items_part(ds.drop_first())))
                + (seq![44u8] + enc_desc(d)));
        }
    }
}

/// What follows an item, spelled with the comma-separated form.
pub proof fn lemma_items_after_part(ds: Seq<DescView>)
    ensures
        items_after(ds) == if ds.len() == 0 {
            seq![93u8]
        } else {
            seq![44u8] + (items_part(ds) + seq![93u8])
        },
    decreases ds.len(),
{
    if ds.len() > 0 {
        lemma_items_after_part(ds.drop_first());
        if ds.len() == 1 {
            assert(seq![44u8] + (enc_desc(ds[0]) + seq![93u8]) =~= seq![44u8] + (items_part(ds)
                + seq![93u8]));
        } else {
            assert(seq![44u8] + (enc_desc(ds[0]) + (seq![44u8] + (items_part(ds.drop_first())
                + seq![93u8]))) =~= seq![44u8] + ((enc_desc(ds[0]) + (seq![44u8]
                + items_part(ds.drop_first()))) + seq![93u8]));
        }
    }
}

/// A list body is its comma-separated items and the closing bracket.
pub proof fn lemma_items_enc_part(ds: Seq<DescView>)
    ensures
        items_enc(ds) == items_part(ds) + seq![93u8],
{
    if ds.len() == 0 {
        assert(seq![93u8] =~= items_part(ds) + seq![93u8]);
    } else {
        lemma_items_after_part(ds.drop_first());
        if ds.len() == 1 {
            assert(enc_desc(ds[0]) + seq![93u8] =~= items_part(ds) + seq![93u8]);
        } else {
            assert(enc_desc(ds[0]) + (seq![44u8] + (items_part(ds.drop_first()) + seq![93u8]))
                =~= (enc_desc(ds[0]) + (seq![44u8] + items_part(ds.drop_first()))) + seq![93u8]);
        }
    }
}

/// An encoded descriptor starts with an opening brace.
pub proof fn lemma_enc_desc_first(d: DescView)
    ensures
        enc_desc(d).len() > 2,
        enc_desc(d)[0] == 123,
{
    assert(s_desc_head()[0] == 123);
    assert(enc_desc(d)[0] == s_desc_head()[0]);
}

/// Read a whole descriptor list, brackets included, at position `i` of
/// `b`; `None` exactly when no well-formed list encoding stands at `i`.
pub fn parse_desc_list(b: &[u8], i: usize) -> (r: Option<(Vec<ArtifactDescriptor>, usize)>)
    requires
        i <= b@.len(),
    ensures
        match r {
            Some(p) => ({
                &&& wf_descs(descs_view(p.0))
                &&& p.1 == i + enc_desc_list(descs_view(p.0)).len()
                &&& p.1 <= b@.len()
                &&& b@.subrange(i as int, p.1 as int) == enc_desc_list(descs_view(p.0))
                &&& forall|ds: Seq<DescView>| wf_descs(ds)
                    && is_prefix(enc_desc_list(ds), b@.skip(i as int)) ==> ds == descs_view(p.0)
            }),
            None => forall|ds: Seq<DescView>| wf_descs(ds)
                ==> !is_prefix(enc_desc_list(ds), b@.skip(i as int)),
        },
{
    let ghost t = b@.skip(i as int);
    if i >= b.len() || b[i] != 91 {
        proof {
            assert forall|ds: Seq<DescView>| wf_descs(ds) implies
                !is_prefix(enc_desc_list(ds), t) by {
                if is_prefix(enc_desc_list(ds), t) {
                    lemma_prefix_index(enc_desc_list(ds), t, 0);
                    assert(t[0] == b@[i as int]);
                }
            }
        }
        return None;
    }
    let j0: usize = i + 1;
    if j0 >= b.len() {
        proof {
            assert forall|ds: Seq<DescView>| wf_descs(ds) implies
                !is_prefix(enc_desc_list(ds), t) by {
                if is_prefix(enc_desc_list(ds), t) {
                    assert(enc_desc_list(ds).len() >= 2);
                    assert(t.len() == b@.len() - i);
                }
            }
        }
        return None;
    }
    if b[j0] == 93 {
        let out: Vec<ArtifactDescriptor> = Vec::new();
        proof {
            let vs = descs_view(out);
            assert(vs =~= Seq::<DescView>::empty());
            assert(b@.subrange(i as int, j0 + 1) =~= enc_desc_list(vs));
            assert forall|ds: Seq<DescView>| wf_descs(ds)
                && is_prefix(enc_desc_list(ds), t) implies ds == vs by {
                lemma_prefix_parts(seq![91u8], items_enc(ds), t);
                lemma_skip_skip(b@, i as int, 1);
                if ds.len() > 0 {
                    lemma_enc_desc_first(ds[0]);
                    lemma_prefix_index(items_enc(ds), b@.skip(j0 as int), 0);
                    assert(items_enc(ds)[0] == enc_desc(ds[0])[0]);
                    assert(b@.skip(j0 as int)[0] == b@[j0 as int]);
                }
                assert(ds.len() == 0);
                assert(ds =~= vs);
            }
        }
        return Some((out, j0 + 1));
    }
    let mut out: Vec<ArtifactDescriptor> = Vec::new();
    let mut j: usize = j0;
    proof {
        assert(descs_view(out) =~= Seq::<DescView>::empty());
        assert forall|ds: Seq<DescView>| wf_descs(ds)
            && is_prefix(enc_desc_list(ds), t) implies ds.len() >= descs_view(out).len() + 1
            && ds.take(descs_view(out).len() as int) == descs_view(out)
            && is_prefix(
                enc_desc(ds[descs_view(out).len() as int])
                    + items_after(ds.skip(descs_view(out).len() as int + 1)),
                b@.skip(j as int),
            ) by {
            lemma_prefix_parts(seq![91u8], items_enc(ds), t);
            lemma_skip_skip(b@, i as int, 1);
            if ds.len() == 0 {
                lemma_prefix_index(items_enc(ds), b@.skip(j as int), 0);
                assert(b@.skip(j as int)[0] == b@[j as int]);
                assert(false);
            }
            assert(ds.drop_first() =~= ds.skip(1));
            assert(ds.take(0) =~= descs_view(out));
        }
    }
    loop
        invariant
            i < j0 <= j <= b@.len(),
            j0 == i + 1,
            b@[i as int] == 91,
            t == b@.skip(i as int),
            wf_descs(descs_view(out)),
            descs_view(out).len() == out@.len(),
            if out@.len() == 0 {
                j == i + 1
            } else {
                b@.subrange(j0 as int, j as int) == items_part(descs_view(out)) + seq![44u8]
            },
            forall|ds: Seq<DescView>| wf_descs(ds)
                && is_prefix(enc_desc_list(ds), t) ==> ds.len() >= descs_view(out).len() + 1
                && ds.take(descs_view(out).len() as int) == descs_view(out)
                && is_prefix(
                    enc_desc(ds[descs_view(out).len() as int])
                        + items_after(ds.skip(descs_view(out).len() as int + 1)),
                    b@.skip(j as int),
                ),
        decreases b@.len() - j,
    {
        let ghost vs0 = descs_view(out);
        let ghost n = vs0.len() as int;
        match parse_desc(b, j) {
            None => {
                proof {
                    assert forall|ds: Seq<DescView>| wf_descs(ds) implies
                        !is_prefix(enc_desc_list(ds), t) by {
                        if is_prefix(enc_desc_list(ds), t) {
                            lemma_prefix_parts(
                                enc_desc(ds[n]),
                                items_after(ds.skip(n + 1)),
                                b@.skip(j as int),
                            );
                            assert(wf_desc(ds[n]));
                        }
                    }
                }
                return None;
            },
            Some(pr) => {
                let (d, j2) = pr;
                proof {
                    assert forall|ds: Seq<DescView>| wf_descs(ds)
                        && is_prefix(enc_desc_list(ds), t) implies ds[n] == d@
                        && is_prefix(items_after(ds.skip(n + 1)), b@.skip(j2 as int)) by {
                        lemma_prefix_parts(
                            enc_desc(ds[n]),
                            items_after(ds.skip(n + 1)),
                            b@.skip(j as int),
                        );
                        assert(wf_desc(ds[n]));
                        assert(ds[n] == d@);
                        lemma_skip_skip(b@, j as int, enc_desc(d@).len() as int);
                    }
                    lemma_items_part_snoc(vs0, d@);
                    assert(descs_view(out).push(d@) =~= out@.push(d).map_values(
                        |x: ArtifactDescriptor| x@,
                    ));
                }
                out.push(d);
                let ghost vs1 = descs_view(out);
                proof {
                    assert(vs1 == vs0.push(d@));
                    assert(vs1[n] == d@);
                    assert(wf_descs(vs1));
                }
                if j2 >= b.len() {
                    proof {
                        assert forall|ds: Seq<DescView>| wf_descs(ds) implies
                            !is_prefix(enc_desc_list(ds), t) by {
                            if is_prefix(enc_desc_list(ds), t) {
                                assert(is_prefix(items_after(ds.skip(n + 1)), b@.skip(j2 as int)));
                                assert(items_after(ds.skip(n + 1)).len() >= 1);
                                assert(b@.skip(j2 as int).len() == 0);
                            }
                        }
                    }
                    return None;
                }
                let c = b[j2];
                proof {
                    lemma_subrange_join(b@, j0 as int, j as int, j2 as int);
                    lemma_subrange_join(b@, j0 as int, j2 as int, j2 + 1);
                    assert(b@.subrange(j2 as int, j2 + 1) =~= seq![b@[j2 as int]]);
                    if n == 0 {
                        assert(b@.subrange(j0 as int, j2 as int) == enc_desc(d@));
                        assert(items_part(vs1) == enc_desc(d@));
                    } else {
                        assert(b@.subrange(j0 as int, j2 as int) == (items_part(vs0) + seq![44u8])
                            + enc_desc(d@));
                        assert((items_part(vs0) + seq![44u8]) + enc_desc(d@) =~= items_part(vs0)
                            + (seq![44u8] + enc_desc(d@)));
                        assert(items_part(vs1) == items_part(vs0) + (seq![44u8] + enc_desc(d@)));
                    }
                    assert(b@.subrange(j0 as int, j2 as int) == items_part(vs1));
                }
                if c == 93 {
                    proof {
                        lemma_items_enc_part(vs1);
                        assert(b@.subrange(j0 as int, j2 + 1) == items_part(vs1) + seq![93u8]);
                        lemma_subrange_join(b@, i as int, j0 as int, j2 + 1);
                        assert(b@.subrange(i as int, j0 as int) =~= seq![91u8]);
                        assert(b@.subrange(i as int, j2 + 1) == enc_desc_list(vs1));
                        lemma_subrange_is_prefix(b@, i as int, j2 + 1);
                        assert forall|ds: Seq<DescView>| wf_descs(ds)
                            && is_prefix(enc_desc_list(ds), t) implies ds == vs1 by {
                            assert(ds[n] == d@);
                            assert(is_prefix(items_after(ds.skip(n + 1)), b@.skip(j2 as int)));
                            if ds.len() > n + 1 {
                                assert(ds.skip(n + 1).len() > 0);
                                lemma_prefix_index(
                                    items_after(ds.skip(n + 1)),
                                    b@.skip(j2 as int),
                                    0,
                                );
                                assert(items_after(ds.skip(n + 1))[0] == 44);
                                assert(b@.skip(j2 as int)[0] == b@[j2 as int]);
                                assert(false);
                            }
                            assert(ds.len() == n + 1);
                            assert(ds.take(n) == vs0);
                            assert(ds =~= vs1);
                        }
                    }
                    return Some((out, j2 + 1));
                }
                if c != 44 {
                    proof {
                        assert forall|ds: Seq<DescView>| wf_descs(ds) implies
                            !is_prefix(enc_desc_list(ds), t) by {
                            if is_prefix(enc_desc_list(ds), t) {
                                assert(is_prefix(items_after(ds.skip(n + 1)), b@.skip(j2 as int)));
                                lemma_prefix_index(
                                    items_after(ds.skip(n + 1)),
                                    b@.skip(j2 as int),
                                    0,
                                );
                                assert(b@.skip(j2 as int)[0] == b@[j2 as int]);
                                if ds.len() > n + 1 {
                                    assert(items_after(ds.skip(n + 1))[0] == 44);
                                } else {
                                    assert(ds.skip(n + 1).len() == 0);
                                    assert(items_after(ds.skip(n + 1))[0] == 93);
                                }
                            }
                        }
                    }
                    return None;
                }
                proof {
                    assert forall|ds: Seq<DescView>| wf_descs(ds)
                        && is_prefix(enc_desc_list(ds), t) implies ds.len() >= vs1.len() + 1
                        && ds.take(vs1.len() as int) == vs1
                        && is_prefix(
                            enc_desc(ds[vs1.len() as int]) + items_after(ds.skip(vs1.len() as int + 1)),
                            b@.skip(j2 + 1),
                        ) by {
                        assert(ds[n] == d@);
                        assert(is_prefix(items_after(ds.skip(n + 1)), b@.skip(j2 as int)));
                        if ds.len() == n + 1 {
                            assert(ds.skip(n + 1).len() == 0);
                            lemma_prefix_index(items_after(ds.skip(n + 1)), b@.skip(j2 as int), 0);
                            assert(b@.skip(j2 as int)[0] == b@[j2 as int]);
                            assert(false);
                        }
                        assert(ds.len() >= n + 2);
                        assert(ds.skip(n + 1).len() > 0);
                        assert(ds.skip(n + 1)[0] == ds[n + 1]);
                        assert(ds.skip(n + 1).drop_first() =~= ds.skip(n + 2));
                        lemma_prefix_parts(
                            seq![44u8],
                            enc_desc(ds[n + 1]) + items_after(ds.skip(n + 2)),
                            b@.skip(j2 as int),
                        );
                        lemma_skip_skip(b@, j2 as int, 1);
                        assert(ds.take(n + 1) =~= ds.take(n).push(ds[n]));
                        assert(ds.take(n + 1) == vs1);
                    }
                }
                j = j2 + 1;
            },
        }
    }
}


/// The encoding of an invocation: an object with `workflow_name`,
/// `artifacts` and `parameters` members in that order.
pub open spec fn enc_invocation(v: InvView) -> Seq<u8> {
    s_inv_head() + (enc_str(v.workflow_name) + (s_inv_arts() + (enc_desc_list(v.artifacts)
        + (s_inv_params() + (enc_str(v.parameters) + s_obj_end())))))
}

/// Where each stage of an invocation encoding stands, for a sequence it
/// is a prefix of.
pub proof fn lemma_inv_stages(v: InvView, t: Seq<u8>)
    requires
        is_prefix(enc_invocation(v), t),
    ensures
        is_prefix(s_inv_head(), t),
        is_prefix(enc_str(v.workflow_name), t.skip(s_inv_head().len() as int)),
        is_prefix(
            s_inv_arts(),
            t.skip((s_inv_head().len() + enc_str(v.workflow_name).len()) as int),
        ),
        is_prefix(
            enc_desc_list(v.artifacts),
            t.skip((s_inv_head().len() + enc_str(v.workflow_name).len()
                + s_inv_arts().len()) as int),
        ),
        is_prefix(
            s_inv_params(),
            t.skip((s_inv_head().len() + enc_str(v.workflow_name).len() + s_inv_arts().len()
                + enc_desc_list(v.artifacts).len()) as int),
        ),
        is_prefix(
            enc_str(v.parameters),
            t.skip((s_inv_head().len() + enc_str(v.workflow_name).len() + s_inv_arts().len()
                + enc_desc_list(v.artifacts).len() + s_inv_params().len()) as int),
        ),
        is_prefix(
            s_obj_end(),
            t.skip((s_inv_head().len() + enc_str(v.workflow_name).len() + s_inv_arts().len()
                + enc_desc_list(v.artifacts).len() + s_inv_params().len()
                + enc_str(v.parameters).len()) as int),
        ),
{
    let o1 = s_inv_head().len() as int;
    let o2 = o1 + enc_str(v.workflow_name).len();
    let o3 = o2 + s_inv_arts().len();
    let o4 = o3 + enc_desc_list(v.artifacts).len();
    let o5 = o4 + s_inv_params().len();
    let o6 = o5 + enc_str(v.parameters).len();
    lemma_prefix_parts(
        s_inv_head(),
        enc_str(v.workflow_name) + (s_inv_arts() + (enc_desc_list(v.artifacts) + (s_inv_params()
            + (enc_str(v.parameters) + s_obj_end())))),
        t,
    );
    lemma_prefix_parts(
        enc_str(v.workflow_name),
        s_inv_arts() + (enc_desc_list(v.artifacts) + (s_inv_params() + (enc_str(v.parameters)
            + s_obj_end()))),
        t.skip(o1),
    );
    lemma_skip_skip(t, o1, o2 - o1);
    lemma_prefix_parts(
        s_inv_arts(),
        enc_desc_list(v.artifacts) + (s_inv_params() + (enc_str(v.parameters) + s_obj_end())),
        t.skip(o2),
    );
    lemma_skip_skip(t, o2, o3 - o2);
    lemma_prefix_parts(
        enc_desc_list(v.artifacts),
        s_inv_params() + (enc_str(v.parameters) + s_obj_end()),
        t.skip(o3),
    );
    lemma_skip_skip(t, o3, o4 - o3);
    lemma_prefix_parts(s_inv_params(), enc_str(v.parameters) + s_obj_end(), t.skip(o4));
    lemma_skip_skip(t, o4, o5 - o4);
    lemma_prefix_parts(enc_str(v.parameters), s_obj_end(), t.skip(o5));
    lemma_skip_skip(t, o5, o6 - o5);
}

/// Append the encoding of one descriptor to `out`.
pub fn push_desc_enc(out: &mut Vec<u8>, d: &ArtifactDescriptor)
    ensures
        final(out)@ == old(out)@ + enc_desc(d@),
{
    let l1 = lit_desc_head();
    push_bytes(out, l1.as_slice());
    push_str_enc(out, d.name.as_slice());
    let l2 = lit_desc_mid();
    push_bytes(out, l2.as_slice());
    push_str_enc(out, d.path.as_slice());
    out.push(125u8);
    proof {
        assert(old(out)@ + s_desc_head() + enc_str(d.name@) + s_desc_mid() + enc_str(d.path@)
            + seq![125u8] =~= old(out)@ + enc_desc(d@));
    }
}

/// Append the encoding of a whole descriptor list to `out`.
pub fn push_desc_list_enc(out: &mut Vec<u8>, ds: &Vec<ArtifactDescriptor>)
    ensures
        final(out)@ == old(out)@ + enc_desc_list(descs_view(*ds)),
{
    out.push(91u8);
    let n = ds.len();
    let mut k: usize = 0;
    while k < n
        invariant
            n == ds@.len(),
            0 <= k <= n,
            descs_view(*ds).len() == n,
            out@ == old(out)@ + seq![91u8] + items_part(descs_view(*ds).take(k as int)),
        decreases n - k,
    {
        let ghost vs = descs_view(*ds);
        if k > 0 {
            out.push(44u8);
        }
        push_desc_enc(out, &ds[k]);
        proof {
            lemma_items_part_snoc(vs.take(k as int), vs[k as int]);
            assert(vs.take(k as int).push(vs[k as int]) =~= vs.take(k as int + 1));
            assert(vs[k as int] == ds@[k as int]@);
            assert(out@ =~= old(out)@ + seq![91u8] + items_part(vs.take(k as int + 1)));
        }
        k += 1;
    }
    out.push(93u8);
    proof {
        let vs = descs_view(*ds);
        lemma_items_enc_part(vs);
        assert(vs.take(n as int) =~= vs);
        assert(old(out)@ + seq![91u8] + items_part(vs) + seq![93u8]
            =~= old(out)@ + enc_desc_list(vs));
    }
}

/// Write an invocation in its canonical byte form, the form the working
/// directory's input file holds.
pub fn encode_invocation(inv: &Invocation) -> (out: Vec<u8>)
    ensures
        out@ == enc_invocation(inv@),
{
    let mut out: Vec<u8> = Vec::new();
    let l1 = lit_inv_head();
    push_bytes(&mut out, l1.as_slice());
    push_str_enc(&mut out, inv.workflow_name.as_slice());
    let l2 = lit_inv_arts();
    push_bytes(&mut out, l2.as_slice());
    push_desc_list_enc(&mut out, &inv.artifacts);
    let l3 = lit_inv_params();
    push_bytes(&mut out, l3.as_slice());
    push_str_enc(&mut out, inv.parameters.as_slice());
    out.push(125u8);
    proof {
        assert(out@ =~= enc_invocation(inv@));
    }
    out
}

/// The short form of an invocation: no `parameters` member, read as
/// empty parameters.
pub open spec fn enc_invocation_short(v: InvView) -> Seq<u8> {
    s_inv_head() + (enc_str(v.workflow_name) + (s_inv_arts() + (enc_desc_list(v.artifacts)
        + s_obj_end())))
}

/// `b` is an invocation document for `v`: the canonical form with a
/// `parameters` member, or the short form without one, which stands
/// for empty parameters.
pub open spec fn is_invocation_doc(b: Seq<u8>, v: InvView) -> bool {
    wf_inv(v) && (b == enc_invocation(v) || (v.parameters.len() == 0 && b
        == enc_invocation_short(v)))
}

/// Where each stage of a short invocation encoding stands, for a
/// sequence it is a prefix of.
pub proof fn lemma_inv_short_stages(v: InvView, t: Seq<u8>)
    requires
        is_prefix(enc_invocation_short(v), t),
    ensures
        is_prefix(s_inv_head(), t),
        is_prefix(enc_str(v.workflow_name), t.skip(s_inv_head().len() as int)),
        is_prefix(
            s_inv_arts(),
            t.skip((s_inv_head().len() + enc_str(v.workflow_name).len()) as int),
        ),
        is_prefix(
            enc_desc_list(v.artifacts),
            t.skip((s_inv_head().len() + enc_str(v.workflow_name).len()
                + s_inv_arts().len()) as int),
        ),
        is_prefix(
            s_obj_end(),
            t.skip((s_inv_head().len() + enc_str(v.workflow_name).len() + s_inv_arts().len()
                + enc_desc_list(v.artifacts).len()) as int),
        ),
{
    let o1 = s_inv_head().len() as int;
    let o2 = o1 + enc_str(v.workflow_name).len();
    let o3 = o2 + s_inv_arts().len();
    let o4 = o3 + enc_desc_list(v.artifacts).len();
    lemma_prefix_parts(
        s_inv_head(),
        enc_str(v.workflow_name) + (s_inv_arts() + (enc_desc_list(v.artifacts) + s_obj_end())),
        t,
    );
    lemma_prefix_parts(
        enc_str(v.workflow_name),
        s_inv_arts() + (enc_desc_list(v.artifacts) + s_obj_end()),
        t.skip(o1),
    );
    lemma_skip_skip(t, o1, o2 - o1);
    lemma_prefix_parts(s_inv_arts(), enc_desc_list(v.artifacts) + s_obj_end(), t.skip(o2));
    lemma_skip_skip(t, o2, o3 - o2);
    lemma_prefix_parts(enc_desc_list(v.artifacts), s_obj_end(), t.skip(o3));
    lemma_skip_skip(t, o3, o4 - o3);
}

/// Read an invocation, consuming the whole input: the canonical form,
/// or the short form whose missing `parameters` member reads as empty
/// parameters. `None` exactly when the input is neither form of any
/// well-formed invocation.
#[verifier::rlimit(40)]
pub fn parse_invocation(b: &[u8]) -> (r: Option<Invocation>)
    ensures
        match r {
            Some(inv) => ({
                &&& is_invocation_doc(b@, inv@)
                &&& forall|v: InvView| is_invocation_doc(b@, v) ==> v == inv@
            }),
            None => forall|v: InvView| !is_invocation_doc(b@, v),
        },
{
    let ghost t = b@;
    proof {
        assert(b@.skip(0) =~= b@);
    }
    let l1 = lit_inv_head();
    let j1 = match expect_bytes(b, 0, l1.as_slice()) {
        Some(j) => j,
        None => {
            proof {
                assert forall|v: InvView| !is_invocation_doc(b@, v) by {
                    if is_invocation_doc(b@, v) {
                        lemma_self_prefix(b@);
                        if b@ == enc_invocation(v) {
                            lemma_inv_stages(v, t);
                        } else {
                            lemma_inv_short_stages(v, t);
                        }
                    }
                }
            }
            return None;
        },
    };
    let (wname, j2) = match parse_string(b, j1) {
        Some(p) => p,
        None => {
            proof {
                assert forall|v: InvView| !is_invocation_doc(b@, v) by {
                    if is_invocation_doc(b@, v) {
                        lemma_self_prefix(b@);
                        if b@ == enc_invocation(v) {
                            lemma_inv_stages(v, t);
                        } else {
                            lemma_inv_short_stages(v, t);
                        }
                    }
                }
            }
            return None;
        },
    };
    let l2 = lit_inv_arts();
    let j3 = match expect_bytes(b, j2, l2.as_slice()) {
        Some(j) => j,
        None => {
            proof {
                assert forall|v: InvView| !is_invocation_doc(b@, v) by {
                    if is_invocation_doc(b@, v) {
                        lemma_self_prefix(b@);
                        if b@ == enc_invocation(v) {
                            lemma_inv_stages(v, t);
                        } else {
                            lemma_inv_short_stages(v, t);
                        }
                        assert(v.workflow_name == wname@);
                    }
                }
            }
            return None;
        },
    };
    let (arts, j4) = match parse_desc_list(b, j3) {
        Some(p) => p,
        None => {
            proof {
                assert forall|v: InvView| !is_invocation_doc(b@, v) by {
                    if is_invocation_doc(b@, v) {
                        lemma_self_prefix(b@);
                        if b@ == enc_invocation(v) {
                            lemma_inv_stages(v, t);
                        } else {
                            lemma_inv_short_stages(v, t);
                        }
                        assert(v.workflow_name == wname@);
                        assert(wf_descs(v.artifacts));
                    }
                }
            }
            return None;
        },
    };
    let l3 = lit_inv_params();
    let j5 = match expect_bytes(b, j4, l3.as_slice()) {
        Some(j) => j,
        None => {
            // no parameters member: the short form may close here
            let l4s = lit_obj_end();
            let j5s = match expect_bytes(b, j4, l4s.as_slice()) {
                Some(j) => j,
                None => {
                    proof {
                        assert forall|v: InvView| !is_invocation_doc(b@, v) by {
                            if is_invocation_doc(b@, v) {
                                lemma_self_prefix(b@);
                                if b@ == enc_invocation(v) {
                                    lemma_inv_stages(v, t);
                                    assert(v.workflow_name == wname@);
                                    assert(wf_descs(v.artifacts));
                                    assert(v.artifacts == descs_view(arts));
                                } else {
                                    lemma_inv_short_stages(v, t);
                                    assert(v.workflow_name == wname@);
                                    assert(wf_descs(v.artifacts));
                                    assert(v.artifacts == descs_view(arts));
                                }
                            }
                        }
                    }
                    return None;
                },
            };
            if j5s != b.len() {
                proof {
                    assert forall|v: InvView| !is_invocation_doc(b@, v) by {
                        if is_invocation_doc(b@, v) {
                            lemma_self_prefix(b@);
                            if b@ == enc_invocation(v) {
                                lemma_inv_stages(v, t);
                                assert(v.workflow_name == wname@);
                                assert(wf_descs(v.artifacts));
                                assert(v.artifacts == descs_view(arts));
                            } else {
                                lemma_inv_short_stages(v, t);
                                assert(v.workflow_name == wname@);
                                assert(wf_descs(v.artifacts));
                                assert(v.artifacts == descs_view(arts));
                                assert(enc_invocation_short(v).len() == j5s);
                            }
                        }
                    }
                }
                return None;
            }
            let inv = Invocation {
                workflow_name: wname,
                artifacts: arts,
                parameters: Vec::new(),
            };
            proof {
                assert(inv@.parameters =~= Seq::<u8>::empty());
                lemma_subrange_join(b@, j3 as int, j4 as int, j5s as int);
                lemma_subrange_join(b@, j2 as int, j3 as int, j5s as int);
                lemma_subrange_join(b@, j1 as int, j2 as int, j5s as int);
                lemma_subrange_join(b@, 0, j1 as int, j5s as int);
                assert(b@.subrange(0, j5s as int) == enc_invocation_short(inv@));
                assert(b@ =~= b@.subrange(0, j5s as int));
                assert(is_invocation_doc(b@, inv@));
                assert forall|v: InvView| is_invocation_doc(b@, v) implies v == inv@ by {
                    lemma_self_prefix(b@);
                    if b@ == enc_invocation(v) {
                        lemma_inv_stages(v, t);
                        assert(v.workflow_name == wname@);
                        assert(wf_descs(v.artifacts));
                        assert(v.artifacts == descs_view(arts));
                        assert(is_prefix(
                            s_inv_params(),
                            b@.skip((s_inv_head().len() + enc_str(v.workflow_name).len()
                                + s_inv_arts().len() + enc_desc_list(v.artifacts).len()) as int),
                        ));
                        assert(false);
                    } else {
                        lemma_inv_short_stages(v, t);
                        assert(v.workflow_name == wname@);
                        assert(wf_descs(v.artifacts));
                        assert(v.artifacts == descs_view(arts));
                        assert(v.parameters =~= inv@.parameters);
                    }
                }
            }
            return Some(inv);
        },
    };
    let ghost o4 = (s_inv_head().len() + enc_str(wname@).len() + s_inv_arts().len()
        + enc_desc_list(descs_view(arts)).len()) as int;
    proof {
        assert(b@.subrange(j4 as int, j5 as int)[0] == s_inv_params()[0]);
        assert(b@[j4 as int] == 44);
        assert(o4 == j4);
    }
    let (params, j6) = match parse_string(b, j5) {
        Some(p) => p,
        None => {
            proof {
                assert forall|v: InvView| !is_invocation_doc(b@, v) by {
                    if is_invocation_doc(b@, v) {
                        lemma_self_prefix(b@);
                        if b@ == enc_invocation(v) {
                            lemma_inv_stages(v, t);
                            assert(v.workflow_name == wname@);
                            assert(wf_descs(v.artifacts));
                            assert(v.artifacts == descs_view(arts));
                        } else {
                            lemma_inv_short_stages(v, t);
                            assert(v.workflow_name == wname@);
                            assert(wf_descs(v.artifacts));
                            assert(v.artifacts == descs_view(arts));
                            lemma_prefix_index(s_obj_end(), b@.skip(o4), 0);
                            assert(b@.skip(o4)[0] == b@[j4 as int]);
                        }
                    }
                }
            }
            return None;
        },
    };
    let l4 = lit_obj_end();
    let j7 = match expect_bytes(b, j6, l4.as_slice()) {
        Some(j) => j,
        None => {
            proof {
                assert forall|v: InvView| !is_invocation_doc(b@, v) by {
                    if is_invocation_doc(b@, v) {
                        lemma_self_prefix(b@);
                        if b@ == enc_invocation(v) {
                            lemma_inv_stages(v, t);
                            assert(v.workflow_name == wname@);
                            assert(wf_descs(v.artifacts));
                            assert(v.artifacts == descs_view(arts));
                            assert(v.parameters == params@);
                        } else {
                            lemma_inv_short_stages(v, t);
                            assert(v.workflow_name == wname@);
                            assert(wf_descs(v.artifacts));
                            assert(v.artifacts == descs_view(arts));
                            lemma_prefix_index(s_obj_end(), b@.skip(o4), 0);
                            assert(b@.skip(o4)[0] == b@[j4 as int]);
                        }
                    }
                }
            }
            return None;
        },
    };
    if j7 != b.len() {
        proof {
            assert forall|v: InvView| !is_invocation_doc(b@, v) by {
                if is_invocation_doc(b@, v) {
                    lemma_self_prefix(b@);
                    if b@ == enc_invocation(v) {
                        lemma_inv_stages(v, t);
                        assert(v.workflow_name == wname@);
                        assert(wf_descs(v.artifacts));
                        assert(v.artifacts == descs_view(arts));
                        assert(v.parameters == params@);
                        assert(enc_invocation(v).len() == j7);
                    } else {
                        lemma_inv_short_stages(v, t);
                        assert(v.workflow_name == wname@);
                        assert(wf_descs(v.artifacts));
                        assert(v.artifacts == descs_view(arts));
                        lemma_prefix_index(s_obj_end(), b@.skip(o4), 0);
                        assert(b@.skip(o4)[0] == b@[j4 as int]);
                    }
                }
            }
        }
        return None;
    }
    let inv = Invocation { workflow_name: wname, artifacts: arts, parameters: params };
    proof {
        lemma_subrange_join(b@, j5 as int, j6 as int, j7 as int);
        lemma_subrange_join(b@, j4 as int, j5 as int, j7 as int);
        lemma_subrange_join(b@, j3 as int, j4 as int, j7 as int);
        lemma_subrange_join(b@, j2 as int, j3 as int, j7 as int);
        lemma_subrange_join(b@, j1 as int, j2 as int, j7 as int);
        lemma_subrange_join(b@, 0, j1 as int, j7 as int);
        assert(b@.subrange(0, j7 as int) == enc_invocation(inv@));
        assert(b@ =~= b@.subrange(0, j7 as int));
        assert(is_invocation_doc(b@, inv@));
        assert forall|v: InvView| is_invocation_doc(b@, v) implies v == inv@ by {
            lemma_self_prefix(b@);
            if b@ == enc_invocation(v) {
                lemma_inv_stages(v, t);
                assert(v.workflow_name == wname@);
                assert(wf_descs(v.artifacts));
                assert(v.artifacts == descs_view(arts));
                assert(v.parameters == params@);
            } else {
                lemma_inv_short_stages(v, t);
                assert(v.workflow_name == wname@);
                assert(wf_descs(v.artifacts));
                assert(v.artifacts == descs_view(arts));
                lemma_prefix_index(s_obj_end(), b@.skip(o4), 0);
                assert(b@.skip(o4)[0] == b@[j4 as int]);
                assert(false);
            }
        }
    }
    Some(inv)
}

/// A sequence is a prefix of itself.
pub proof fn lemma_self_prefix(s: Seq<u8>)
    ensures
        is_prefix(s, s),
{
    assert(s.subrange(0, s.len() as int) =~= s);
}

/// Writing an invocation into its canonical byte form and reading it
/// back yields the invocation itself: the round trip through the
/// working directory's input file loses nothing.
pub fn write_then_read_invocation(inv: &Invocation) -> (r: Invocation)
    requires
        wf_inv(inv@),
    ensures
        r@ == inv@,
{
    let bytes = encode_invocation(inv);
    proof {
        assert(is_invocation_doc(bytes@, inv@));
    }
    match parse_invocation(bytes.as_slice()) {
        Some(x) => {
            proof {
                assert(inv@ == x@);
            }
            x
        },
        None => {
            proof {
                assert(false);
            }
            unreached()
        },
    }
}


/// The encoding of one result artifact: a local descriptor keeps its
/// `path`; an uploaded one carries its remote `url` instead.
pub open spec fn enc_item(it: ItemView) -> Seq<u8> {
    match it {
        ItemView::Local(d) => enc_desc(d),
        ItemView::Remote(r) => s_desc_head() + (enc_str(r.name) + (s_ref_mid() + (enc_str(r.url)
            + s_obj_end()))),
    }
}

/// The comma-separated result items without brackets.
pub open spec fn ritems_part(its: Seq<ItemView>) -> Seq<u8>
    decreases its.len(),
{
    if its.len() == 0 {
        Seq::empty()
    } else if its.len() == 1 {
        enc_item(its[0])
    } else {
        enc_item(its[0]) + (seq![44u8] + ritems_part(its.drop_first()))
    }
}

/// The encoding of a whole result artifact list.
pub open spec fn enc_item_list(its: Seq<ItemView>) -> Seq<u8> {
    seq![91u8] + (ritems_part(its) + seq![93u8])
}

/// The encoding of a result: the artifact list under `outputs`, then
/// the opaque payload.
pub open spec fn enc_result(v: ResView) -> Seq<u8> {
    s_res_head() + (enc_item_list(v.artifacts) + (s_res_payload() + (enc_str(v.payload)
        + s_obj_end())))
}

/// An all-local item list encodes exactly as its descriptor list.
pub proof fn lemma_local_items_part(its: Seq<ItemView>)
    requires
        all_local_items(its),
    ensures
        ritems_part(its) == items_part(locals_of(its)),
    decreases its.len(),
{
    if its.len() > 0 {
        assert(its[0] is Local);
        assert(all_local_items(its.drop_first()));
        lemma_local_items_part(its.drop_first());
        assert(locals_of(its).drop_first() =~= locals_of(its.drop_first()));
        assert(locals_of(its)[0] == local_desc(its[0]));
        assert(enc_item(its[0]) == enc_desc(local_desc(its[0])));
    }
}

/// An all-local item list's bracketed encoding equals the descriptor
/// list's.
pub proof fn lemma_local_item_list(its: Seq<ItemView>)
    requires
        all_local_items(its),
    ensures
        enc_item_list(its) == enc_desc_list(locals_of(its)),
{
    lemma_local_items_part(its);
    lemma_items_enc_part(locals_of(its));
    assert(seq![91u8] + (items_part(locals_of(its)) + seq![93u8]) =~= seq![91u8]
        + items_enc(locals_of(its)));
}

/// Where each stage of a result encoding stands, for a sequence it is
/// a prefix of.
pub proof fn lemma_res_stages(v: ResView, t: Seq<u8>)
    requires
        is_prefix(enc_result(v), t),
    ensures
        is_prefix(s_res_head(), t),
        is_prefix(enc_item_list(v.artifacts), t.skip(s_res_head().len() as int)),
        is_prefix(
            s_res_payload(),
            t.skip((s_res_head().len() + enc_item_list(v.artifacts).len()) as int),
        ),
        is_prefix(
            enc_str(v.payload),
            t.skip((s_res_head().len() + enc_item_list(v.artifacts).len()
                + s_res_payload().len()) as int),
        ),
        is_prefix(
            s_obj_end(),
            t.skip((s_res_head().len() + enc_item_list(v.artifacts).len()
                + s_res_payload().len() + enc_str(v.payload).len()) as int),
        ),
{
    let o1 = s_res_head().len() as int;
    let o2 = o1 + enc_item_list(v.artifacts).len();
    let o3 = o2 + s_res_payload().len();
    let o4 = o3 + enc_str(v.payload).len();
    lemma_prefix_parts(
        s_res_head(),
        enc_item_list(v.artifacts) + (s_res_payload() + (enc_str(v.payload) + s_obj_end())),
        t,
    );
    lemma_prefix_parts(
        enc_item_list(v.artifacts),
        s_res_payload() + (enc_str(v.payload) + s_obj_end()),
        t.skip(o1),
    );
    lemma_skip_skip(t, o1, o2 - o1);
    lemma_prefix_parts(s_res_payload(), enc_str(v.payload) + s_obj_end(), t.skip(o2));
    lemma_skip_skip(t, o2, o3 - o2);
    lemma_prefix_parts(enc_str(v.payload), s_obj_end(), t.skip(o3));
    lemma_skip_skip(t, o3, o4 - o3);
}

/// Copy a byte slice into a fresh vector.
pub fn copy_bytes(v: &[u8]) -> (r: Vec<u8>)
    ensures
        r@ == v@,
{
    let mut r: Vec<u8> = Vec::new();
    push_bytes(&mut r, v);
    proof {
        assert(Seq::<u8>::empty() + v@ =~= v@);
    }
    r
}

/// Wrap parsed descriptors as local result items.
pub fn items_from_descs(ds: &Vec<ArtifactDescriptor>) -> (r: Vec<ArtifactItem>)
    ensures
        items_view(r).len() == descs_view(*ds).len(),
        all_local_items(items_view(r)),
        locals_of(items_view(r)) == descs_view(*ds),
{
    let n = ds.len();
    let mut r: Vec<ArtifactItem> = Vec::new();
    let mut k: usize = 0;
    while k < n
        invariant
            n == ds@.len(),
            0 <= k <= n,
            items_view(r).len() == k,
            all_local_items(items_view(r)),
            locals_of(items_view(r)) == descs_view(*ds).take(k as int),
        decreases n - k,
    {
        let d = ArtifactDescriptor {
            name: copy_bytes(ds[k].name.as_slice()),
            path: copy_bytes(ds[k].path.as_slice()),
        };
        proof {
            assert(d@ == ds@[k as int]@);
        }
        let ghost prev = items_view(r);
        r.push(ArtifactItem::Local(d));
        proof {
            assert(items_view(r) =~= prev.push(ItemView::Local(d@)));
            assert(locals_of(items_view(r)) =~= locals_of(prev).push(local_desc(
                ItemView::Local(d@),
            )));
            assert(locals_of(items_view(r)) =~= descs_view(*ds).take(k as int + 1));
        }
        k += 1;
    }
    proof {
        assert(descs_view(*ds).take(n as int) =~= descs_view(*ds));
    }
    r
}

/// Append the encoding of one result item to `out`.
pub fn push_item_enc(out: &mut Vec<u8>, it: &ArtifactItem)
    ensures
        final(out)@ == old(out)@ + enc_item(it@),
{
    match it {
        ArtifactItem::Local(d) => {
            push_desc_enc(out, d);
        },
        ArtifactItem::Remote(r) => {
            let l1 = lit_desc_head();
            push_bytes(out, l1.as_slice());
            push_str_enc(out, r.name.as_slice());
            let l2 = lit_ref_mid();
            push_bytes(out, l2.as_slice());
            push_str_enc(out, r.url.as_slice());
            out.push(125u8);
            proof {
                assert(old(out)@ + s_desc_head() + enc_str(r.name@) + s_ref_mid()
                    + enc_str(r.url@) + seq![125u8] =~= old(out)@ + enc_item(it@));
            }
        },
    }
}

/// Appending one item to the comma-separated result form.
pub proof fn lemma_ritems_part_snoc(its: Seq<ItemView>, it: ItemView)
    ensures
        ritems_part(its.push(it)) == if its.len() == 0 {
            enc_item(it)
        } else {
            ritems_part(its) + (seq![44u8] + enc_item(it))
        },
    decreases its.len(),
{
    if its.len() == 0 {
        assert(its.push(it).len() == 1);
        assert(its.push(it)[0] == it);
    } else {
        lemma_ritems_part_snoc(its.drop_first(), it);
        assert(its.push(it).drop_first() =~= its.drop_first().push(it));
        assert(its.push(it)[0] == its[0]);
        if its.len() == 1 {
            assert(ritems_part(its.push(it)) == enc_item(its[0]) + (seq![44u8] + enc_item(it)));
        } else {
            assert(enc_item(its[0]) + (seq![44u8] + (ritems_part(its.drop_first()) + (seq![44u8]
                + enc_item(it)))) =~= (enc_item(its[0]) + (seq![44u8]
                + ritems_part(its.drop_first()))) + (seq![44u8] + enc_item(it)));
        }
    }
}

/// Append the encoding of a whole result item list to `out`.
pub fn push_item_list_enc(out: &mut Vec<u8>, its: &Vec<ArtifactItem>)
    ensures
        final(out)@ == old(out)@ + enc_item_list(items_view(*its)),
{
    out.push(91u8);
    let n = its.len();
    let mut k: usize = 0;
    while k < n
        invariant
            n == its@.len(),
            0 <= k <= n,
            items_view(*its).len() == n,
            out@ == old(out)@ + seq![91u8] + ritems_part(items_view(*its).take(k as int)),
        decreases n - k,
    {
        let ghost vs = items_view(*its);
        if k > 0 {
            out.push(44u8);
        }
        push_item_enc(out, &its[k]);
        proof {
            lemma_ritems_part_snoc(vs.take(k as int), vs[k as int]);
            assert(vs.take(k as int).push(vs[k as int]) =~= vs.take(k as int + 1));
            assert(vs[k as int] == its@[k as int]@);
            assert(out@ =~= old(out)@ + seq![91u8] + ritems_part(vs.take(k as int + 1)));
        }
        k += 1;
    }
    out.push(93u8);
    proof {
        let vs = items_view(*its);
        assert(vs.take(n as int) =~= vs);
        assert(old(out)@ + seq![91u8] + ritems_part(vs) + seq![93u8]
            =~= old(out)@ + enc_item_list(vs));
    }
}

/// Write a result in its canonical byte form, the form the terminal
/// patch carries to the control plane.
pub fn encode_result(res: &WorkloadResult) -> (out: Vec<u8>)
    ensures
        out@ == enc_result(res@),
{
    let mut out: Vec<u8> = Vec::new();
    let l1 = lit_res_head();
    push_bytes(&mut out, l1.as_slice());
    push_item_list_enc(&mut out, &res.artifacts);
    let l2 = lit_res_payload();
    push_bytes(&mut out, l2.as_slice());
    push_str_enc(&mut out, res.payload.as_slice());
    out.push(125u8);
    proof {
        assert(out@ =~= enc_result(res@));
    }
    out
}

/// Read a result from its canonical byte form, consuming the whole
/// input. A freshly produced result lists its artifacts as local
/// descriptors, so only those are read; `None` exactly when the input
/// is not the encoding of any well-formed all-local result.
#[verifier::rlimit(60)]
pub fn parse_result(b: &[u8]) -> (r: Option<WorkloadResult>)
    ensures
        match r {
            Some(res) => ({
                &&& wf_res(res@)
                &&& all_local(res@)
                &&& b@ == enc_result(res@)
                &&& forall|v: ResView| wf_res(v) && all_local(v) && b@ == enc_result(v)
                    ==> v == res@
            }),
            None => forall|v: ResView| wf_res(v) && all_local(v) ==> b@ != enc_result(v),
        },
{
    let ghost t = b@;
    proof {
        assert(b@.skip(0) =~= b@);
    }
    let l1 = lit_res_head();
    let j1 = match expect_bytes(b, 0, l1.as_slice()) {
        Some(j) => j,
        None => {
            proof {
                assert forall|v: ResView| wf_res(v) && all_local(v) implies
                    b@ != enc_result(v) by {
                    if b@ == enc_result(v) {
                        lemma_self_prefix(b@);
                        lemma_res_stages(v, t);
                    }
                }
            }
            return None;
        },
    };
    let (arts, j2) = match parse_desc_list(b, j1) {
        Some(p) => p,
        None => {
            proof {
                assert forall|v: ResView| wf_res(v) && all_local(v) implies
                    b@ != enc_result(v) by {
                    if b@ == enc_result(v) {
                        lemma_self_prefix(b@);
                        lemma_res_stages(v, t);
                        lemma_local_item_list(v.artifacts);
                        assert(wf_descs(locals_of(v.artifacts)));
                    }
                }
            }
            return None;
        },
    };
    let l2 = lit_res_payload();
    let j3 = match expect_bytes(b, j2, l2.as_slice()) {
        Some(j) => j,
        None => {
            proof {
                assert forall|v: ResView| wf_res(v) && all_local(v) implies
                    b@ != enc_result(v) by {
                    if b@ == enc_result(v) {
                        lemma_self_prefix(b@);
                        lemma_res_stages(v, t);
                        lemma_local_item_list(v.artifacts);
                        assert(wf_descs(locals_of(v.artifacts)));
                        assert(locals_of(v.artifacts) == descs_view(arts));
                    }
                }
            }
            return None;
        },
    };
    let (payload, j4) = match parse_string(b, j3) {
        Some(p) => p,
        None => {
            proof {
                assert forall|v: ResView| wf_res(v) && all_local(v) implies
                    b@ != enc_result(v) by {
                    if b@ == enc_result(v) {
                        lemma_self_prefix(b@);
                        lemma_res_stages(v, t);
                        lemma_local_item_list(v.artifacts);
                        assert(wf_descs(locals_of(v.artifacts)));
                        assert(locals_of(v.artifacts) == descs_view(arts));
                    }
                }
            }
            return None;
        },
    };
    let l3 = lit_obj_end();
    let j5 = match expect_bytes(b, j4, l3.as_slice()) {
        Some(j) => j,
        None => {
            proof {
                assert forall|v: ResView| wf_res(v) && all_local(v) implies
                    b@ != enc_result(v) by {
                    if b@ == enc_result(v) {
                        lemma_self_prefix(b@);
                        lemma_res_stages(v, t);
                        lemma_local_item_list(v.artifacts);
                        assert(wf_descs(locals_of(v.artifacts)));
                        assert(locals_of(v.artifacts) == descs_view(arts));
                        assert(v.payload == payload@);
                    }
                }
            }
            return None;
        },
    };
    if j5 != b.len() {
        proof {
            assert forall|v: ResView| wf_res(v) && all_local(v) implies
                b@ != enc_result(v) by {
                if b@ == enc_result(v) {
                    lemma_self_prefix(b@);
                    lemma_res_stages(v, t);
                    lemma_local_item_list(v.artifacts);
                    assert(wf_descs(locals_of(v.artifacts)));
                    assert(locals_of(v.artifacts) == descs_view(arts));
                    assert(v.payload == payload@);
                    assert(enc_result(v).len() == j5);
                }
            }
        }
        return None;
    }
    let items = items_from_descs(&arts);
    let res = WorkloadResult { artifacts: items, payload };
    proof {
        lemma_local_item_list(items_view(res.artifacts));
        assert(locals_of(items_view(res.artifacts)) == descs_view(arts));
        assert(enc_item_list(items_view(res.artifacts)) == enc_desc_list(descs_view(arts)));
        lemma_subrange_join(b@, j3 as int, j4 as int, j5 as int);
        lemma_subrange_join(b@, j2 as int, j3 as int, j5 as int);
        lemma_subrange_join(b@, j1 as int, j2 as int, j5 as int);
        lemma_subrange_join(b@, 0, j1 as int, j5 as int);
        assert(b@.subrange(0, j5 as int) == enc_result(res@));
        assert(b@ =~= b@.subrange(0, j5 as int));
        assert forall|k: int| 0 <= k < res@.artifacts.len() implies wf_item(
            #[trigger] res@.artifacts[k],
        ) by {
            assert(res@.artifacts[k] is Local);
            assert(local_desc(res@.artifacts[k]) == locals_of(items_view(res.artifacts))[k]);
            assert(locals_of(items_view(res.artifacts))[k] == descs_view(arts)[k]);
            assert(wf_desc(descs_view(arts)[k]));
        }
        assert(wf_res(res@));
        assert(all_local(res@));
        assert forall|v: ResView| wf_res(v) && all_local(v) && b@ == enc_result(v) implies
            v == res@ by {
            lemma_self_prefix(b@);
            lemma_res_stages(v, t);
            lemma_local_item_list(v.artifacts);
            assert(wf_descs(locals_of(v.artifacts)));
            assert(locals_of(v.artifacts) == descs_view(arts));
            assert(v.payload == payload@);
            assert forall|k: int| 0 <= k < v.artifacts.len() implies
                #[trigger] v.artifacts[k] == items_view(res.artifacts)[k] by {
                assert(locals_of(v.artifacts)[k] == local_desc(v.artifacts[k]));
                assert(locals_of(items_view(res.artifacts))[k]
                    == local_desc(items_view(res.artifacts)[k]));
                assert(v.artifacts[k] is Local);
                assert(items_view(res.artifacts)[k] is Local);
                assert(local_desc(v.artifacts[k]) == local_desc(items_view(res.artifacts)[k]));
            }
            assert(v.artifacts =~= items_view(res.artifacts));
        }
    }
    Some(res)
}

/// The encoding of an artifact-repository configuration.
pub open spec fn enc_repo(v: RepoView) -> Seq<u8> {
    s_repo_head() + (enc_str(v.endpoint) + (s_repo_mid() + (enc_str(v.bucket) + s_obj_end())))
}

/// Where each stage of a repository configuration encoding stands, for
/// a sequence it is a prefix of.
pub proof fn lemma_repo_stages(v: RepoView, t: Seq<u8>)
    requires
        is_prefix(enc_repo(v), t),
    ensures
        is_prefix(s_repo_head(), t),
        is_prefix(enc_str(v.endpoint), t.skip(s_repo_head().len() as int)),
        is_prefix(
            s_repo_mid(),
            t.skip((s_repo_head().len() + enc_str(v.endpoint).len()) as int),
        ),
        is_prefix(
            enc_str(v.bucket),
            t.skip((s_repo_head().len() + enc_str(v.endpoint).len() + s_repo_mid().len()) as int),
        ),
        is_prefix(
            s_obj_end(),
            t.skip((s_repo_head().len() + enc_str(v.endpoint).len() + s_repo_mid().len()
                + enc_str(v.bucket).len()) as int),
        ),
{
    let o1 = s_repo_head().len() as int;
    let o2 = o1 + enc_str(v.endpoint).len();
    let o3 = o2 + s_repo_mid().len();
    let o4 = o3 + enc_str(v.bucket).len();
    lemma_prefix_parts(
        s_repo_head(),
        enc_str(v.endpoint) + (s_repo_mid() + (enc_str(v.bucket) + s_obj_end())),
        t,
    );
    lemma_prefix_parts(
        enc_str(v.endpoint),
        s_repo_mid() + (enc_str(v.bucket) + s_obj_end()),
        t.skip(o1),
    );
    lemma_skip_skip(t, o1, o2 - o1);
    lemma_prefix_parts(s_repo_mid(), enc_str(v.bucket) + s_obj_end(), t.skip(o2));
    lemma_skip_skip(t, o2, o3 - o2);
    lemma_prefix_parts(enc_str(v.bucket), s_obj_end(), t.skip(o3));
    lemma_skip_skip(t, o3, o4 - o3);
}

/// Read a repository configuration from its canonical byte form,
/// consuming the whole input; `None` exactly when the input is not the
/// encoding of any well-formed configuration.
pub fn parse_repo_config(b: &[u8]) -> (r: Option<RepoConfig>)
    ensures
        match r {
            Some(c) => wf_repo(c@) && b@ == enc_repo(c@),
            None => forall|v: RepoView| wf_repo(v) ==> b@ != enc_repo(v),
        },
{
    let ghost t = b@;
    proof {
        assert(b@.skip(0) =~= b@);
    }
    let l1 = lit_repo_head();
    let j1 = match expect_bytes(b, 0, l1.as_slice()) {
        Some(j) => j,
        None => {
            proof {
                assert forall|v: RepoView| wf_repo(v) implies b@ != enc_repo(v) by {
                    if b@ == enc_repo(v) {
                        lemma_self_prefix(b@);
                        lemma_repo_stages(v, t);
                    }
                }
            }
            return None;
        },
    };
    let (endpoint, j2) = match parse_string(b, j1) {
        Some(p) => p,
        None => {
            proof {
                assert forall|v: RepoView| wf_repo(v) implies b@ != enc_repo(v) by {
                    if b@ == enc_repo(v) {
                        lemma_self_prefix(b@);
                        lemma_repo_stages(v, t);
                    }
                }
            }
            return None;
        },
    };
    let l2 = lit_repo_mid();
    let j3 = match expect_bytes(b, j2, l2.as_slice()) {
        Some(j) => j,
        None => {
            proof {
                assert forall|v: RepoView| wf_repo(v) implies b@ != enc_repo(v) by {
                    if b@ == enc_repo(v) {
                        lemma_self_prefix(b@);
                        lemma_repo_stages(v, t);
                        assert(v.endpoint == endpoint@);
                    }
                }
            }
            return None;
        },
    };
    let (bucket, j4) = match parse_string(b, j3) {
        Some(p) => p,
        None => {
            proof {
                assert forall|v: RepoView| wf_repo(v) implies b@ != enc_repo(v) by {
                    if b@ == enc_repo(v) {
                        lemma_self_prefix(b@);
                        lemma_repo_stages(v, t);
                        assert(v.endpoint == endpoint@);
                    }
                }
            }
            return None;
        },
    };
    let l3 = lit_obj_end();
    let j5 = match expect_bytes(b, j4, l3.as_slice()) {
        Some(j) => j,
        None => {
            proof {
                assert forall|v: RepoView| wf_repo(v) implies b@ != enc_repo(v) by {
                    if b@ == enc_repo(v) {
                        lemma_self_prefix(b@);
                        lemma_repo_stages(v, t);
                        assert(v.endpoint == endpoint@);
                        assert(v.bucket == bucket@);
                    }
                }
            }
            return None;
        },
    };
    if j5 != b.len() {
        proof {
            assert forall|v: RepoView| wf_repo(v) implies b@ != enc_repo(v) by {
                if b@ == enc_repo(v) {
                    lemma_self_prefix(b@);
                    lemma_repo_stages(v, t);
                    assert(v.endpoint == endpoint@);
                    assert(v.bucket == bucket@);
                    assert(enc_repo(v).len() == j5);
                }
            }
        }
        return None;
    }
    let c = RepoConfig { endpoint, bucket };
    proof {
        lemma_subrange_join(b@, j3 as int, j4 as int, j5 as int);
        lemma_subrange_join(b@, j2 as int, j3 as int, j5 as int);
        lemma_subrange_join(b@, j1 as int, j2 as int, j5 as int);
        lemma_subrange_join(b@, 0, j1 as int, j5 as int);
        assert(b@.subrange(0, j5 as int) == enc_repo(c@));
        assert(b@ =~= b@.subrange(0, j5 as int));
    }
    Some(c)
}


/// Repository-configuration encodings are injective.
pub proof fn lemma_enc_repo_injective(v1: RepoView, v2: RepoView)
    requires
        wf_repo(v1),
        wf_repo(v2),
        enc_repo(v1) == enc_repo(v2),
    ensures
        v1 == v2,
{
    let t = enc_repo(v1);
    lemma_self_prefix(t);
    lemma_repo_stages(v1, t);
    lemma_repo_stages(v2, t);
    lemma_enc_str_prefix_unique(v1.endpoint, v2.endpoint, t.skip(s_repo_head().len() as int));
    lemma_enc_str_prefix_unique(
        v1.bucket,
        v2.bucket,
        t.skip((s_repo_head().len() + enc_str(v1.endpoint).len() + s_repo_mid().len()) as int),
    );
}


/// All entries of a telemetry map are well formed.
pub open spec fn wf_entries(es: Seq<EntryView>) -> bool {
    forall|k: int| 0 <= k < es.len() ==> ok_str((#[trigger] es[k]).key) && ok_str(es[k].value)
}

/// The encoding of one telemetry pair: key, colon, value.
pub open spec fn enc_pair(e: EntryView) -> Seq<u8> {
    enc_str(e.key) + (seq![58u8] + enc_str(e.value))
}

/// The pairs of a telemetry map with the closing brace; the form the
/// document takes right after the opening brace.
pub open spec fn pairs_enc(es: Seq<EntryView>) -> Seq<u8>
    decreases es.len(),
{
    if es.len() == 0 {
        seq![125u8]
    } else {
        enc_pair(es[0]) + pairs_after(es.drop_first())
    }
}

/// What follows a parsed pair: the closing brace, or a comma and the
/// remaining pairs.
pub open spec fn pairs_after(es: Seq<EntryView>) -> Seq<u8>
    decreases es.len(),
{
    if es.len() == 0 {
        seq![125u8]
    } else {
        seq![44u8] + (enc_pair(es[0]) + pairs_after(es.drop_first()))
    }
}

/// The encoding of a whole telemetry map: a flat object of string
/// pairs in order.
pub open spec fn enc_telemetry(es: Seq<EntryView>) -> Seq<u8> {
    seq![123u8] + pairs_enc(es)
}

/// Where the stages of a pair encoding stand, for a sequence it is a
/// prefix of.
pub proof fn lemma_pair_stages(e: EntryView, t: Seq<u8>)
    requires
        is_prefix(enc_pair(e), t),
    ensures
        is_prefix(enc_str(e.key), t),
        is_prefix(seq![58u8], t.skip(enc_str(e.key).len() as int)),
        is_prefix(enc_str(e.value), t.skip(enc_str(e.key).len() as int + 1)),
{
    let o1 = enc_str(e.key).len() as int;
    lemma_prefix_parts(enc_str(e.key), seq![58u8] + enc_str(e.value), t);
    lemma_prefix_parts(seq![58u8], enc_str(e.value), t.skip(o1));
    lemma_skip_skip(t, o1, 1);
}

/// Read one telemetry pair at position `i` of `b`; `None` exactly when
/// no well-formed pair encoding stands at `i`.
pub fn parse_pair(b: &[u8], i: usize) -> (r: Option<(ConfigEntry, usize)>)
    requires
        i <= b@.len(),
    ensures
        match r {
            Some(p) => ({
                &&& ok_str(p.0.key@) && ok_str(p.0.value@)
                &&& p.1 == i + enc_pair(p.0@).len()
                &&& p.1 <= b@.len()
                &&& b@.subrange(i as int, p.1 as int) == enc_pair(p.0@)
                &&& forall|e: EntryView| ok_str(e.key) && ok_str(e.value)
                    && is_prefix(enc_pair(e), b@.skip(i as int)) ==> e == p.0@
            }),
            None => forall|e: EntryView| ok_str(e.key) && ok_str(e.value)
                ==> !is_prefix(enc_pair(e), b@.skip(i as int)),
        },
{
    let ghost t = b@.skip(i as int);
    let (key, j1) = match parse_string(b, i) {
        Some(p) => p,
        None => {
            proof {
                assert forall|e: EntryView| ok_str(e.key) && ok_str(e.value) implies
                    !is_prefix(enc_pair(e), t) by {
                    if is_prefix(enc_pair(e), t) {
                        lemma_pair_stages(e, t);
                    }
                }
            }
            return None;
        },
    };
    let mut colon: Vec<u8> = Vec::new();
    colon.push(58u8);
    proof {
        assert(colon@ =~= seq![58u8]);
    }
    let j2 = match expect_bytes(b, j1, colon.as_slice()) {
        Some(j) => j,
        None => {
            proof {
                assert forall|e: EntryView| ok_str(e.key) && ok_str(e.value) implies
                    !is_prefix(enc_pair(e), t) by {
                    if is_prefix(enc_pair(e), t) {
                        lemma_pair_stages(e, t);
                        assert(e.key == key@);
                        lemma_skip_skip(b@, i as int, enc_str(e.key).len() as int);
                    }
                }
            }
            return None;
        },
    };
    let (value, j3) = match parse_string(b, j2) {
        Some(p) => p,
        None => {
            proof {
                assert forall|e: EntryView| ok_str(e.key) && ok_str(e.value) implies
                    !is_prefix(enc_pair(e), t) by {
                    if is_prefix(enc_pair(e), t) {
                        lemma_pair_stages(e, t);
                        assert(e.key == key@);
                        lemma_skip_skip(b@, i as int, enc_str(e.key).len() as int + 1);
                    }
                }
            }
            return None;
        },
    };
    let en = ConfigEntry { key, value };
    proof {
        lemma_subrange_join(b@, j1 as int, j2 as int, j3 as int);
        lemma_subrange_join(b@, i as int, j1 as int, j3 as int);
        assert(b@.subrange(j1 as int, j2 as int) =~= seq![58u8]);
        assert(b@.subrange(i as int, j3 as int) == enc_pair(en@));
        lemma_subrange_is_prefix(b@, i as int, j3 as int);
        assert forall|e: EntryView| ok_str(e.key) && ok_str(e.value)
            && is_prefix(enc_pair(e), t) implies e == en@ by {
            lemma_pair_stages(e, t);
            assert(e.key == key@);
            lemma_skip_skip(b@, i as int, enc_str(e.key).len() as int + 1);
            assert(e.value == value@);
        }
    }
    Some((en, j3))
}

/// An encoded pair starts with a quote.
pub proof fn lemma_enc_pair_first(e: EntryView)
    ensures
        enc_pair(e).len() >= 5,
        enc_pair(e)[0] == 34,
{
    lemma_enc_str_index(e.key);
    assert(enc_pair(e)[0] == enc_str(e.key)[0]);
}

/// Read a whole telemetry map, braces included, consuming the whole
/// input; `None` exactly when the input is not the encoding of any
/// well-formed map.
#[verifier::loop_isolation(false)]
#[verifier::rlimit(30)]
pub fn parse_telemetry(b: &[u8]) -> (r: Option<Vec<ConfigEntry>>)
    ensures
        match r {
            Some(es) => wf_entries(entries_view(es)) && b@ == enc_telemetry(entries_view(es)),
            None => forall|es: Seq<EntryView>| wf_entries(es) ==> b@ != enc_telemetry(es),
        },
{
    let ghost t = b@;
    proof {
        assert(b@.skip(0) =~= b@);
    }
    if b.len() == 0 || b[0] != 123 {
        proof {
            assert forall|es: Seq<EntryView>| wf_entries(es) implies b@ != enc_telemetry(es) by {
                if b@ == enc_telemetry(es) {
                    assert(b@[0] == 123);
                }
            }
        }
        return None;
    }
    let j0: usize = 1;
    if j0 >= b.len() {
        proof {
            assert forall|es: Seq<EntryView>| wf_entries(es) implies b@ != enc_telemetry(es) by {
                if b@ == enc_telemetry(es) {
                    assert(enc_telemetry(es).len() >= 2);
                }
            }
        }
        return None;
    }
    if b[j0] == 125 {
        if b.len() == 2 {
            let out: Vec<ConfigEntry> = Vec::new();
            proof {
                assert(entries_view(out) =~= Seq::<EntryView>::empty());
                assert(b@ =~= enc_telemetry(Seq::<EntryView>::empty()));
                assert forall|es: Seq<EntryView>| wf_entries(es) && b@ == enc_telemetry(es)
                    implies es == entries_view(out) by {
                    if es.len() > 0 {
                        lemma_enc_pair_first(es[0]);
                        assert(b@[1] == pairs_enc(es)[0]);
                        assert(pairs_enc(es)[0] == enc_pair(es[0])[0]);
                    }
                    assert(es =~= entries_view(out));
                }
            }
            return Some(out);
        }
        proof {
            assert forall|es: Seq<EntryView>| wf_entries(es) implies b@ != enc_telemetry(es) by {
                if b@ == enc_telemetry(es) {
                    if es.len() == 0 {
                        assert(b@.len() == 2);
                    } else {
                        lemma_enc_pair_first(es[0]);
                        assert(b@[1] == pairs_enc(es)[0]);
                        assert(pairs_enc(es)[0] == enc_pair(es[0])[0]);
                    }
                }
            }
        }
        return None;
    }
    let mut out: Vec<ConfigEntry> = Vec::new();
    let mut j: usize = j0;
    proof {
        assert(entries_view(out) =~= Seq::<EntryView>::empty());
        assert forall|es: Seq<EntryView>| wf_entries(es) && b@ == enc_telemetry(es) implies
            es.len() >= entries_view(out).len() + 1
            && es.take(entries_view(out).len() as int) == entries_view(out)
            && is_prefix(
                enc_pair(es[entries_view(out).len() as int])
                    + pairs_after(es.skip(entries_view(out).len() as int + 1)),
                b@.skip(j as int),
            ) by {
            lemma_self_prefix(b@);
            lemma_prefix_parts(seq![123u8], pairs_enc(es), t);
            lemma_skip_skip(b@, 0, 1);
            if es.len() == 0 {
                lemma_prefix_index(pairs_enc(es), b@.skip(j as int), 0);
                assert(b@.skip(j as int)[0] == b@[j as int]);
                assert(false);
            }
            assert(es.drop_first() =~= es.skip(1));
            assert(es.take(0) =~= entries_view(out));
        }
    }
    loop
        invariant
            1 <= j <= b@.len(),
            b@[0] == 123,
            t == b@,
            wf_entries(entries_view(out)),
            entries_view(out).len() == out@.len(),
            if out@.len() == 0 {
                j == 1
            } else {
                b@.subrange(1, j as int) == pairs_part_comma(entries_view(out)) + seq![44u8]
            },
            forall|es: Seq<EntryView>| wf_entries(es) && b@ == enc_telemetry(es)
                ==> es.len() >= entries_view(out).len() + 1
                && es.take(entries_view(out).len() as int) == entries_view(out)
                && is_prefix(
                    enc_pair(es[entries_view(out).len() as int])
                        + pairs_after(es.skip(entries_view(out).len() as int + 1)),
                    b@.skip(j as int),
                ),
        decreases b@.len() - j,
    {
        let ghost vs0 = entries_view(out);
        let ghost n = vs0.len() as int;
        match parse_pair(b, j) {
            None => {
                proof {
                    assert forall|es: Seq<EntryView>| wf_entries(es) implies
                        b@ != enc_telemetry(es) by {
                        if b@ == enc_telemetry(es) {
                            lemma_prefix_parts(
                                enc_pair(es[n]),
                                pairs_after(es.skip(n + 1)),
                                b@.skip(j as int),
                            );
                        }
                    }
                }
                return None;
            },
            Some(pr) => {
                let (en, j2) = pr;
                proof {
                    assert forall|es: Seq<EntryView>| wf_entries(es) && b@ == enc_telemetry(es)
                        implies es[n] == en@
                        && is_prefix(pairs_after(es.skip(n + 1)), b@.skip(j2 as int)) by {
                        lemma_prefix_parts(
                            enc_pair(es[n]),
                            pairs_after(es.skip(n + 1)),
                            b@.skip(j as int),
                        );
                        assert(es[n] == en@);
                        lemma_skip_skip(b@, j as int, enc_pair(en@).len() as int);
                    }
                    lemma_pairs_comma_snoc(vs0, en@);
                    assert(entries_view(out).push(en@) =~= out@.push(en).map_values(
                        |x: ConfigEntry| x@,
                    ));
                }
                out.push(en);
                let ghost vs1 = entries_view(out);
                if j2 >= b.len() {
                    proof {
                        assert forall|es: Seq<EntryView>| wf_entries(es) implies
                            b@ != enc_telemetry(es) by {
                            if b@ == enc_telemetry(es) {
                                assert(pairs_after(es.skip(n + 1)).len() >= 1);
                                assert(b@.skip(j2 as int).len() == 0);
                            }
                        }
                    }
                    return None;
                }
                let c = b[j2];
                proof {
                    lemma_subrange_join(b@, 1, j as int, j2 as int);
                    lemma_subrange_join(b@, 1, j2 as int, j2 + 1);
                    assert(b@.subrange(j2 as int, j2 + 1) =~= seq![b@[j2 as int]]);
                    if n == 0 {
                        assert(b@.subrange(1, j2 as int) == enc_pair(en@));
                        assert(pairs_part_comma(vs1) == enc_pair(en@));
                    } else {
                        assert(b@.subrange(1, j2 as int) == (pairs_part_comma(vs0) + seq![44u8])
                            + enc_pair(en@));
                        assert((pairs_part_comma(vs0) + seq![44u8]) + enc_pair(en@)
                            =~= pairs_part_comma(vs0) + (seq![44u8] + enc_pair(en@)));
                        assert(pairs_part_comma(vs1) == pairs_part_comma(vs0) + (seq![44u8]
                            + enc_pair(en@)));
                    }
                    assert(b@.subrange(1, j2 as int) == pairs_part_comma(vs1));
                }
                if c == 125 {
                    proof {
                        lemma_pairs_enc_comma(vs1);
                        assert(b@.subrange(1, j2 + 1) == pairs_enc(vs1));
                        assert(b@.subrange(0, 1) =~= seq![123u8]);
                        lemma_subrange_join(b@, 0, 1, j2 + 1);
                        assert(b@.subrange(0, j2 + 1) == enc_telemetry(vs1));
                    }
                    if j2 + 1 == b.len() {
                        proof {
                            assert(b@ =~= b@.subrange(0, j2 + 1));
                        }
                        return Some(out);
                    }
                    proof {
                        assert forall|es: Seq<EntryView>| wf_entries(es) implies
                            b@ != enc_telemetry(es) by {
                            if b@ == enc_telemetry(es) {
                                assert(es[n] == en@);
                                assert(is_prefix(
                                    pairs_after(es.skip(n + 1)),
                                    b@.skip(j2 as int),
                                ));
                                if es.len() > n + 1 {
                                    lemma_prefix_index(
                                        pairs_after(es.skip(n + 1)),
                                        b@.skip(j2 as int),
                                        0,
                                    );
                                    assert(pairs_after(es.skip(n + 1))[0] == 44);
                                    assert(b@.skip(j2 as int)[0] == b@[j2 as int]);
                                } else {
                                    assert(es.len() == n + 1);
                                    assert(es.take(n) == vs0);
                                    assert(es =~= vs1);
                                    assert(b@ == enc_telemetry(vs1));
                                    assert(b@.len() == j2 + 1);
                                }
                            }
                        }
                    }
                    return None;
                }
                if c != 44 {
                    proof {
                        assert forall|es: Seq<EntryView>| wf_entries(es) implies
                            b@ != enc_telemetry(es) by {
                            if b@ == enc_telemetry(es) {
                                assert(es[n] == en@);
                                assert(is_prefix(
                                    pairs_after(es.skip(n + 1)),
                                    b@.skip(j2 as int),
                                ));
                                lemma_prefix_index(
                                    pairs_after(es.skip(n + 1)),
                                    b@.skip(j2 as int),
                                    0,
                                );
                                assert(b@.skip(j2 as int)[0] == b@[j2 as int]);
                                if es.len() > n + 1 {
                                    assert(pairs_after(es.skip(n + 1))[0] == 44);
                                } else {
                                    assert(es.skip(n + 1).len() == 0);
                                    assert(pairs_after(es.skip(n + 1))[0] == 125);
                                }
                            }
                        }
                    }
                    return None;
                }
                proof {
                    assert forall|es: Seq<EntryView>| wf_entries(es) && b@ == enc_telemetry(es)
                        implies es.len() >= vs1.len() + 1 && es.take(vs1.len() as int) == vs1
                        && is_prefix(
                            enc_pair(es[vs1.len() as int]) + pairs_after(es.skip(
                                vs1.len() as int + 1,
                            )),
                            b@.skip(j2 + 1),
                        ) by {
                        assert(es[n] == en@);
                        assert(is_prefix(pairs_after(es.skip(n + 1)), b@.skip(j2 as int)));
                        if es.len() == n + 1 {
                            assert(es.skip(n + 1).len() == 0);
                            lemma_prefix_index(
                                pairs_after(es.skip(n + 1)),
                                b@.skip(j2 as int),
                                0,
                            );
                            assert(b@.skip(j2 as int)[0] == b@[j2 as int]);
                            assert(false);
                        }
                        assert(es.skip(n + 1).len() > 0);
                        assert(es.skip(n + 1)[0] == es[n + 1]);
                        assert(es.skip(n + 1).drop_first() =~= es.skip(n + 2));
                        lemma_prefix_parts(
                            seq![44u8],
                            enc_pair(es[n + 1]) + pairs_after(es.skip(n + 2)),
                            b@.skip(j2 as int),
                        );
                        lemma_skip_skip(b@, j2 as int, 1);
                        assert(es.take(n + 1) =~= es.take(n).push(es[n]));
                    }
                }
                j = j2 + 1;
            },
        }
    }
}

/// The comma-separated pairs without braces.
pub open spec fn pairs_part_comma(es: Seq<EntryView>) -> Seq<u8>
    decreases es.len(),
{
    if es.len() == 0 {
        Seq::empty()
    } else if es.len() == 1 {
        enc_pair(es[0])
    } else {
        enc_pair(es[0]) + (seq![44u8] + pairs_part_comma(es.drop_first()))
    }
}

/// Appending one pair to the comma-separated form.
pub proof fn lemma_pairs_comma_snoc(es: Seq<EntryView>, e: EntryView)
    ensures
        pairs_part_comma(es.push(e)) == if es.len() == 0 {
            enc_pair(e)
        } else {
            pairs_part_comma(es) + (seq![44u8] + enc_pair(e))
        },
    decreases es.len(),
{
    if es.len() == 0 {
        assert(es.push(e).len() == 1);
        assert(es.push(e)[0] == e);
    } else {
        lemma_pairs_comma_snoc(es.drop_first(), e);
        assert(es.push(e).drop_first() =~= es.drop_first().push(e));
        assert(es.push(e)[0] == es[0]);
        if es.len() == 1 {
            assert(pairs_part_comma(es.push(e)) == enc_pair(es[0]) + (seq![44u8] + enc_pair(e)));
        } else {
            assert(enc_pair(es[0]) + (seq![44u8] + (pairs_part_comma(es.drop_first())
                + (seq![44u8] + enc_pair(e)))) =~= (enc_pair(es[0]) + (seq![44u8]
                + pairs_part_comma(es.drop_first()))) + (seq![44u8] + enc_pair(e)));
        }
    }
}

/// A map body is its comma-separated pairs and the closing brace.
pub proof fn lemma_pairs_enc_comma(es: Seq<EntryView>)
    ensures
        pairs_enc(es) == pairs_part_comma(es) + seq![125u8],
{
    if es.len() == 0 {
        assert(seq![125u8] =~= pairs_part_comma(es) + seq![125u8]);
    } else {
        lemma_pairs_after_comma(es.drop_first());
        if es.len() == 1 {
            assert(enc_pair(es[0]) + seq![125u8] =~= pairs_part_comma(es) + seq![125u8]);
        } else {
            assert(enc_pair(es[0]) + (seq![44u8] + (pairs_part_comma(es.drop_first())
                + seq![125u8])) =~= (enc_pair(es[0]) + (seq![44u8] + pairs_part_comma(
                es.drop_first(),
            ))) + seq![125u8]);
        }
    }
}

/// What follows a pair, spelled with the comma-separated form.
pub proof fn lemma_pairs_after_comma(es: Seq<EntryView>)
    ensures
        pairs_after(es) == if es.len() == 0 {
            seq![125u8]
        } else {
            seq![44u8] + (pairs_part_comma(es) + seq![125u8])
        },
    decreases es.len(),
{
    if es.len() > 0 {
        lemma_pairs_after_comma(es.drop_first());
        if es.len() == 1 {
            assert(seq![44u8] + (enc_pair(es[0]) + seq![125u8]) =~= seq![44u8]
                + (pairs_part_comma(es) + seq![125u8]));
        } else {
            assert(seq![44u8] + (enc_pair(es[0]) + (seq![44u8] + (pairs_part_comma(
                es.drop_first(),
            ) + seq![125u8]))) =~= seq![44u8] + ((enc_pair(es[0]) + (seq![44u8]
                + pairs_part_comma(es.drop_first()))) + seq![125u8]));
        }
    }
}

} // verus!
