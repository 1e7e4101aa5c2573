use vstd::prelude::*;
use vstd::utf8::encode_utf8;
use crate::records::CodecError;

verus! {

/// A domain name as its ordered labels; the empty sequence is the root.
pub type DomainName = Vec<String>;

/// The labels of a name, each as its characters.
pub open spec fn labels_view(n: Seq<String>) -> Seq<Seq<char>> {
    n.map_values(|l: String| l@)
}

/// The labels joined with `.` (empty for no labels).
pub open spec fn join_labels(ls: Seq<Seq<char>>) -> Seq<char>
    decreases ls.len(),
{
    if ls.len() == 0 {
        Seq::empty()
    } else if ls.len() == 1 {
        ls[0]
    } else {
        join_labels(ls.drop_last()) + seq!['.'] + ls.last()
    }
}

/// Presentation form: the labels joined with `.`, or `.` for the root.
pub open spec fn presentation(ls: Seq<Seq<char>>) -> Seq<char> {
    if ls.len() == 0 {
        seq!['.']
    } else {
        join_labels(ls)
    }
}

/// The pieces of `s` between `.` separators (one empty piece for the empty text).
pub open spec fn split_dots(s: Seq<char>) -> Seq<Seq<char>>
    decreases s.len(),
{
    if s.len() == 0 {
        seq![Seq::empty()]
    } else {
        let rest = split_dots(s.drop_last());
        if s.last() == '.' {
            rest.push(Seq::empty())
        } else {
            rest.update(rest.len() - 1, rest.last().push(s.last()))
        }
    }
}

/// A label that the wire form can carry: one to 63 bytes.
pub open spec fn label_ok(l: Seq<char>) -> bool {
    1 <= encode_utf8(l).len() <= 63
}

/// The length-prefixed labels, without the terminating zero.
pub open spec fn labels_wire(ls: Seq<Seq<char>>) -> Seq<u8>
    decreases ls.len(),
{
    if ls.len() == 0 {
        Seq::empty()
    } else {
        labels_wire(ls.drop_last()) + seq![encode_utf8(ls.last()).len() as u8] + encode_utf8(
            ls.last(),
        )
    }
}

/// Uncompressed wire form: length-prefixed labels, then a zero byte.
pub open spec fn name_wire(ls: Seq<Seq<char>>) -> Seq<u8> {
    labels_wire(ls).push(0u8)
}

/// A name that the wire form can carry: every label fits, and at most 255 bytes in all.
pub open spec fn name_ok(ls: Seq<Seq<char>>) -> bool {
    &&& forall|i: int| 0 <= i < ls.len() ==> label_ok(#[trigger] ls[i])
    &&& name_wire(ls).len() <= 255
}

/// Relies on `str::split`: the pieces of the text between `.` separators.
#[verifier::external_body]
fn split_on_dots(s: &str) -> (r: Vec<String>)
    ensures
        labels_view(r@) == split_dots(s@),
{
    s.split('.').map(|x| x.to_string()).collect()
}

/// Text to labels.
pub trait ToDomainName {
    fn to_domain_name(&self) -> DomainName;
}

impl ToDomainName for String {
    fn to_domain_name(&self) -> (r: DomainName)
        ensures
            labels_view(r@) == split_dots(self@),
    {
        split_on_dots(self.as_str())
    }
}

/// Appends the bytes of `b` to `w`.
pub(crate) fn push_bytes(w: &mut Vec<u8>, b: &[u8])
    ensures
        final(w)@ == old(w)@ + b@,
{
    let ghost start = w@;
    let mut i: usize = 0;
    while i < b.len()
        invariant
            0 <= i <= b@.len(),
            w@ == start + b@.subrange(0, i as int),
        decreases b@.len() - i,
    {
        w.push(b[i]);
        i += 1;
        assert(w@ =~= start + b@.subrange(0, i as int));
    }
    assert(b@.subrange(0, i as int) =~= b@);
}

proof fn lemma_labels_wire_prefix_len(ls: Seq<Seq<char>>, i: int)
    requires
        0 <= i <= ls.len(),
    ensures
        labels_wire(ls.subrange(0, i)).len() <= labels_wire(ls).len(),
    decreases ls.len() - i,
{
    if i < ls.len() {
        lemma_labels_wire_prefix_len(ls, i + 1);
        assert(ls.subrange(0, i + 1).drop_last() =~= ls.subrange(0, i));
    } else {
        assert(ls.subrange(0, i) =~= ls);
    }
}

/// Labels to presentation form.
pub trait ToReadableName {
    fn to_domain_name(&self) -> String;
}

impl ToReadableName for DomainName {
    fn to_domain_name(&self) -> (r: String)
        ensures
            r@ == presentation(labels_view(self@)),
    {
        if self.len() == 0 {
            proof {
                reveal_strlit(".");
            }
            return String::from_str(".");
        }
        let ghost lv = labels_view(self@);
        let mut res = String::new();
        let mut i: usize = 0;
        while i < self.len()
            invariant
                0 <= i <= self@.len(),
                lv == labels_view(self@),
                res@ == join_labels(lv.subrange(0, i as int)),
            decreases self@.len() - i,
        {
            if i > 0 {
                res.append(".");
                proof {
                    reveal_strlit(".");
                }
            }
            res.append(self[i].as_str());
            i += 1;
            proof {
                let sub = lv.subrange(0, i as int);
                assert(sub.drop_last() =~= lv.subrange(0, i - 1));
                if i == 1 {
                    assert(res@ =~= sub[0]);
                } else {
                    assert(res@ =~= join_labels(sub.drop_last()) + seq!['.'] + sub.last());
                }
            }
        }
        assert(lv.subrange(0, i as int) =~= lv);
        res
    }
}

/// Labels to the uncompressed wire form.
pub trait DomainNameToBytes {
    fn to_bytes(&self) -> Result<Vec<u8>, CodecError>;
}

impl DomainNameToBytes for DomainName {
    /// Fails with `Oversized` when a label is empty or over 63 bytes, or the name over 255.
    fn to_bytes(&self) -> (r: Result<Vec<u8>, CodecError>)
        ensures
            match r {
                Ok(b) => name_ok(labels_view(self@)) && b@ == name_wire(labels_view(self@)),
                Err(e) => !name_ok(labels_view(self@)) && e == CodecError::Oversized,
            },
    {
        let ghost lv = labels_view(self@);
        let mut res: Vec<u8> = Vec::new();
        let mut i: usize = 0;
        while i < self.len()
            invariant
                0 <= i <= self@.len(),
                lv == labels_view(self@),
                res@ == labels_wire(lv.subrange(0, i as int)),
                res@.len() <= 254,
                forall|j: int| 0 <= j < i ==> label_ok(#[trigger] lv[j]),
            decreases self@.len() - i,
        {
            let b = self[i].as_str().as_bytes();
            assert(b@ == encode_utf8(lv[i as int]));
            if b.len() == 0 || b.len() > 63 {
                return Err(CodecError::Oversized);
            }
            if res.len() + 1 + b.len() > 254 {
                proof {
                    assert(lv.subrange(0, i + 1).drop_last() =~= lv.subrange(0, i as int));
                    lemma_labels_wire_prefix_len(lv, i + 1);
                }
                return Err(CodecError::Oversized);
            }
            res.push(b.len() as u8);
            push_bytes(&mut res, b);
            i += 1;
            proof {
                let sub = lv.subrange(0, i as int);
                assert(sub.drop_last() =~= lv.subrange(0, i - 1));
                assert(res@ =~= labels_wire(sub.drop_last()) + seq![encode_utf8(sub.last()).len() as u8] + encode_utf8(sub.last()));
            }
        }
        assert(lv.subrange(0, i as int) =~= lv);
        res.push(0u8);
        Ok(res)
    }
}

} // verus!
