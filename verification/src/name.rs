//! Interpreting a byte offset inside a DNS message as a domain name.
//!
//! A name is a chain of length-prefixed labels that ends with a zero-length
//! label or with a compression pointer: a 2-byte back-reference whose low 14
//! bits give an absolute offset where the traversal continues.  The model
//! here, `resolve_labels`, follows that rule with two safety bounds that the
//! wire format itself does not supply: every byte access is bounds-checked,
//! and the number of pointer jumps in one traversal is capped at the buffer
//! length, which is enough for every terminating chain (a traversal that
//! jumps more often than there are buffer positions must revisit a position
//! and so never terminates).

use vstd::prelude::*;
use vstd::string::StringSliceAdditionalSpecFns;

verus! {

/// Why reading a question or a name failed.
#[derive(Clone, Copy, Debug, PartialEq, Eq, Structural)]
pub enum ParseError {
    /// A label, a pointer, or the type/class tail needs bytes past the end of
    /// the buffer.
    Truncated,
    /// The pointer-jump budget ran out: the chain of compression pointers is
    /// longer than the buffer itself, so it revisits a position and would
    /// never terminate.
    Malformed,
}

/// A length descriptor whose top two bits are both set is a compression
/// pointer.
pub open spec fn spec_is_pointer(b: u8) -> bool {
    b >= 192
}

/// The low six bits of a length descriptor: the label length, 0 to 63.
pub open spec fn spec_label_len(b: u8) -> int {
    (b % 64) as int
}

/// The absolute offset a compression pointer at `i` refers to: the
/// descriptor's low six bits followed by the whole next byte.
pub open spec fn spec_pointer_target(buf: Seq<u8>, i: int) -> int {
    spec_label_len(buf[i]) * 256 + buf[i + 1]
}

/// The label chain a traversal starting at `i` decodes to, with `jumps`
/// pointer jumps still allowed, or the failure it runs into.
pub open spec fn resolve_labels(buf: Seq<u8>, i: int, jumps: nat) -> Result<
    Seq<Seq<u8>>,
    ParseError,
>
    decreases jumps, buf.len() - i,
{
    if !(0 <= i < buf.len()) {
        Err(ParseError::Truncated)
    } else if spec_is_pointer(buf[i]) {
        if i + 1 >= buf.len() {
            Err(ParseError::Truncated)
        } else if jumps == 0 {
            Err(ParseError::Malformed)
        } else if spec_pointer_target(buf, i) <= buf.len() {
            resolve_labels(buf, spec_pointer_target(buf, i), (jumps - 1) as nat)
        } else {
            Err(ParseError::Truncated)
        }
    } else {
        let len = spec_label_len(buf[i]);
        if len == 0 {
            Ok(Seq::empty())
        } else if i + 1 + len <= buf.len() {
            match resolve_labels(buf, i + 1 + len, jumps) {
                Ok(rest) => Ok(seq![buf.subrange(i + 1, i + 1 + len)] + rest),
                Err(e) => Err(e),
            }
        } else {
            Err(ParseError::Truncated)
        }
    }
}

/// The label chain of the name starting at `start`, with the full jump budget
/// of one jump per buffer position.
pub open spec fn name_labels(buf: Seq<u8>, start: int) -> Result<Seq<Seq<u8>>, ParseError> {
    resolve_labels(buf, start, buf.len() as nat)
}

/// The dotted textual form of a label chain: the labels' bytes in order, with
/// a `.` between consecutive labels.
pub open spec fn dotted_bytes(labels: Seq<Seq<u8>>) -> Seq<u8>
    decreases labels.len(),
{
    if labels.len() == 0 {
        Seq::empty()
    } else if labels.len() == 1 {
        labels[0]
    } else {
        labels[0] + seq![46u8] + dotted_bytes(labels.drop_first())
    }
}

/// What rendering the name at `start` produces: its dotted text, or the
/// failure the traversal runs into.
pub open spec fn rendered(buf: Seq<u8>, start: int) -> Result<Seq<u8>, ParseError> {
    match name_labels(buf, start) {
        Ok(labels) => Ok(dotted_bytes(labels)),
        Err(e) => Err(e),
    }
}

/// ASCII case folding: the lower-case form of a letter, any other byte
/// unchanged.
pub open spec fn fold_case(b: u8) -> u8 {
    if 65 <= b && b <= 90 {
        (b + 32) as u8
    } else {
        b
    }
}

/// Two byte sequences are equal up to ASCII case.
pub open spec fn eq_fold(a: Seq<u8>, b: Seq<u8>) -> bool {
    a.len() == b.len() && forall|k: int|
        0 <= k < a.len() ==> #[trigger] fold_case(a[k]) == fold_case(b[k])
}

/// Lock-step comparison of a label chain against a plain string's bytes:
/// each label matches the next piece of the string up to ASCII case, a
/// literal `.` stands between labels, and both sides end together.
pub open spec fn labels_match(labels: Seq<Seq<u8>>, s: Seq<u8>) -> bool
    decreases labels.len(), 0int,
{
    if labels.len() == 0 {
        s.len() == 0
    } else {
        let len = labels[0].len() as int;
        &&& s.len() >= len
        &&& eq_fold(labels[0], s.take(len))
        &&& tail_match(labels.drop_first(), s.skip(len))
    }
}

/// The rest of a lock-step comparison once at least one label has been
/// consumed: either both sides are exhausted, or a `.` separates the labels
/// still to come from the string's remainder.
pub open spec fn tail_match(labels: Seq<Seq<u8>>, s: Seq<u8>) -> bool
    decreases labels.len(), 1int,
{
    if labels.len() == 0 {
        s.len() == 0
    } else {
        s.len() >= 1 && s[0] == 46 && labels_match(labels, s.skip(1))
    }
}

/// Whether the name at `start` decodes to a label chain that matches the
/// string `s` case-insensitively; a name whose traversal fails matches
/// nothing.
pub open spec fn name_matches(buf: Seq<u8>, start: int, s: Seq<u8>) -> bool {
    match name_labels(buf, start) {
        Ok(labels) => labels_match(labels, s),
        Err(_) => false,
    }
}

/// Whether a length descriptor is a compression pointer: both top bits set.
pub fn is_pointer(len: u8) -> (r: bool)
    ensures
        r == spec_is_pointer(len),
{
    proof {
        assert((len >> 6u8 == 3u8) == (len >= 192u8)) by (bit_vector);
    }
    (len >> 6) == 0b11
}

/// The label length held in a descriptor's low six bits.
pub fn mask_len(len: u8) -> (r: usize)
    ensures
        r == spec_label_len(len),
{
    proof {
        assert(len & 0b00111111u8 == len % 64u8) by (bit_vector);
    }
    (len & 0b00111111) as usize
}

/// The lower-case form of an ASCII letter, any other byte unchanged.
pub fn fold_byte(b: u8) -> (r: u8)
    ensures
        r == fold_case(b),
{
    if b >= 65 && b <= 90 {
        b + 32
    } else {
        b
    }
}

/// Appending a label to a chain appends, after a `.` when the chain was not
/// empty, the label's bytes to the chain's dotted form.
pub proof fn lemma_dotted_snoc(prefix: Seq<Seq<u8>>, label: Seq<u8>)
    ensures
        prefix.len() == 0 ==> dotted_bytes(prefix.push(label)) == label,
        prefix.len() > 0 ==> dotted_bytes(prefix.push(label)) == dotted_bytes(prefix) + seq![46u8]
            + label,
    decreases prefix.len(),
{
    if prefix.len() == 0 {
        assert(prefix.push(label) =~= seq![label]);
        assert(dotted_bytes(seq![label]) == label);
    } else {
        lemma_dotted_snoc(prefix.drop_first(), label);
        assert(prefix.push(label).drop_first() =~= prefix.drop_first().push(label));
        assert(prefix.push(label)[0] == prefix[0]);
        if prefix.len() == 1 {
            assert(dotted_bytes(prefix) == prefix[0]);
            assert(dotted_bytes(prefix.push(label)) == prefix[0] + seq![46u8] + label);
        } else {
            assert(dotted_bytes(prefix.push(label)) == prefix[0] + seq![46u8] + dotted_bytes(
                prefix.drop_first().push(label),
            ));
            assert(dotted_bytes(prefix.drop_first().push(label)) == dotted_bytes(
                prefix.drop_first(),
            ) + seq![46u8] + label);
            assert(dotted_bytes(prefix) == prefix[0] + seq![46u8] + dotted_bytes(
                prefix.drop_first(),
            ));
            assert(prefix[0] + seq![46u8] + (dotted_bytes(prefix.drop_first()) + seq![46u8]
                + label) =~= (prefix[0] + seq![46u8] + dotted_bytes(prefix.drop_first()))
                + seq![46u8] + label);
        }
    }
}

/// A view of the place in the buffer where a name's label chain begins.
///
/// The view borrows the message buffer; traversal discovers the name's end on
/// its own (zero-length label or pointer), so no end offset is stored.
#[derive(Clone, Copy, Debug)]
pub struct QuestionName<'a> {
    buf: &'a [u8],
    start: usize,
}

impl<'a> QuestionName<'a> {
    /// The message buffer the view reads.
    pub closed spec fn sbuf(self) -> Seq<u8> {
        self.buf@
    }

    /// The offset where the name's label chain begins.
    pub closed spec fn sstart(self) -> int {
        self.start as int
    }

    /// A view of the name starting at `start` in `buf`.
    pub fn new(buf: &'a [u8], start: usize) -> (r: QuestionName<'a>)
        ensures
            r.sbuf() == buf@,
            r.sstart() == start as int,
    {
        QuestionName { buf, start }
    }

    /// Renders the name as dotted text: each label's bytes in traversal
    /// order, with a `.` between labels, following compression pointers.
    /// A traversal that would leave the buffer or jump in a cycle is reported
    /// as an error instead.
    pub fn render(&self) -> (r: Result<Vec<u8>, ParseError>)
        ensures
            match r {
                Ok(v) => rendered(self.sbuf(), self.sstart()) == Ok::<Seq<u8>, ParseError>(v@),
                Err(e) => rendered(self.sbuf(), self.sstart()) == Err::<Seq<u8>, ParseError>(e),
            },
    {
        let buf = self.buf;
        let n = buf.len();
        if self.start > n {
            return Err(ParseError::Truncated);
        }
        let mut i = self.start;
        let mut jumps: usize = 0;
        let mut first = true;
        let mut out: Vec<u8> = Vec::new();
        let ghost mut prefix: Seq<Seq<u8>> = Seq::empty();
        loop
            invariant
                buf@ == self.sbuf(),
                n == buf@.len(),
                i <= n,
                jumps <= n,
                first <==> prefix.len() == 0,
                out@ == dotted_bytes(prefix),
                match resolve_labels(buf@, i as int, (n - jumps) as nat) {
                    Ok(rest) => name_labels(buf@, self.sstart()) == Ok::<
                        Seq<Seq<u8>>,
                        ParseError,
                    >(prefix + rest),
                    Err(e) => name_labels(buf@, self.sstart()) == Err::<
                        Seq<Seq<u8>>,
                        ParseError,
                    >(e),
                },
            decreases n - jumps, n - i,
        {
            if i >= n {
                return Err(ParseError::Truncated);
            }
            let b = buf[i];
            if is_pointer(b) {
                if i + 1 >= n {
                    return Err(ParseError::Truncated);
                }
                if jumps >= n {
                    return Err(ParseError::Malformed);
                }
                let t = mask_len(b) * 256 + buf[i + 1] as usize;
                assert(t == spec_pointer_target(buf@, i as int));
                if t > n {
                    return Err(ParseError::Truncated);
                }
                jumps = jumps + 1;
                i = t;
            } else {
                let len = mask_len(b);
                if len == 0 {
                    proof {
                        assert(prefix + Seq::<Seq<u8>>::empty() =~= prefix);
                    }
                    return Ok(out);
                }
                if len >= n - i {
                    return Err(ParseError::Truncated);
                }
                if !first {
                    out.push(46);
                }
                let ghost label: Seq<u8> = buf@.subrange(i as int + 1, i as int + 1 + len as int);
                let ghost out_base: Seq<u8> = out@;
                let mut k = i + 1;
                while k < i + 1 + len
                    invariant
                        buf@ == self.sbuf(),
                        n == buf@.len(),
                        i + 1 <= k <= i + 1 + len,
                        i + 1 + len <= n,
                        label == buf@.subrange(i as int + 1, i as int + 1 + len as int),
                        out@ == out_base + buf@.subrange(i as int + 1, k as int),
                    decreases i + 1 + len - k,
                {
                    proof {
                        assert(buf@.subrange(i as int + 1, k as int + 1) =~= buf@.subrange(
                            i as int + 1,
                            k as int,
                        ).push(buf@[k as int]));
                    }
                    out.push(buf[k]);
                    k = k + 1;
                }
                proof {
                    assert(out@ == out_base + label);
                    lemma_dotted_snoc(prefix, label);
                    if prefix.len() == 0 {
                        assert(out_base =~= Seq::<u8>::empty());
                        assert(out@ =~= label);
                    } else {
                        assert(out_base =~= dotted_bytes(prefix).push(46u8));
                        assert(out@ =~= dotted_bytes(prefix) + seq![46u8] + label);
                    }
                    let budget = (n - jumps) as nat;
                    match resolve_labels(buf@, i as int + 1 + len as int, budget) {
                        Ok(rest) => {
                            assert(resolve_labels(buf@, i as int, budget) == Ok::<
                                Seq<Seq<u8>>,
                                ParseError,
                            >(seq![label] + rest));
                            assert(prefix + (seq![label] + rest) =~= prefix.push(label) + rest);
                        },
                        Err(_) => {},
                    }
                    prefix = prefix.push(label);
                }
                first = false;
                i = i + 1 + len;
            }
        }
    }

    /// Compares the name against a plain string's bytes, case-insensitively
    /// for ASCII letters, without building the dotted text: each label must
    /// match the next piece of the string, a literal `.` must stand between
    /// labels, and both sides must end together.  A name whose traversal
    /// fails matches nothing.
    pub fn eq_bytes(&self, other: &[u8]) -> (r: bool)
        ensures
            r == name_matches(self.sbuf(), self.sstart(), other@),
    {
        let buf = self.buf;
        let n = buf.len();
        let olen = other.len();
        if self.start > n {
            return false;
        }
        let mut i = self.start;
        let mut oi: usize = 0;
        let mut jumps: usize = 0;
        let mut first = true;
        proof {
            assert(other@.skip(0) =~= other@);
        }
        loop
            invariant
                buf@ == self.sbuf(),
                n == buf@.len(),
                olen == other@.len(),
                i <= n,
                jumps <= n,
                oi <= olen,
                match resolve_labels(buf@, i as int, (n - jumps) as nat) {
                    Ok(rest) => name_matches(self.sbuf(), self.sstart(), other@) == if first {
                        labels_match(rest, other@.skip(oi as int))
                    } else {
                        tail_match(rest, other@.skip(oi as int))
                    },
                    Err(_) => !name_matches(self.sbuf(), self.sstart(), other@),
                },
            decreases n - jumps, n - i,
        {
            if i >= n {
                return false;
            }
            let b = buf[i];
            if is_pointer(b) {
                if i + 1 >= n {
                    return false;
                }
                if jumps >= n {
                    return false;
                }
                let t = mask_len(b) * 256 + buf[i + 1] as usize;
                assert(t == spec_pointer_target(buf@, i as int));
                if t > n {
                    return false;
                }
                jumps = jumps + 1;
                i = t;
            } else {
                let len = mask_len(b);
                if len == 0 {
                    assert(other@.skip(oi as int).len() == other@.len() - oi);
                    return oi == olen;
                }
                if len >= n - i {
                    return false;
                }
                let ghost budget = (n - jumps) as nat;
                let ghost label: Seq<u8> = buf@.subrange(i as int + 1, i as int + 1 + len as int);
                let ghost after = resolve_labels(buf@, i as int + 1 + len as int, budget);
                proof {
                    match after {
                        Ok(r2) => {
                            assert(resolve_labels(buf@, i as int, budget) == Ok::<
                                Seq<Seq<u8>>,
                                ParseError,
                            >(seq![label] + r2));
                            assert((seq![label] + r2)[0] == label);
                            assert((seq![label] + r2).drop_first() =~= r2);
                            assert(label.len() == len);
                        },
                        Err(e) => {
                            assert(resolve_labels(buf@, i as int, budget) == Err::<
                                Seq<Seq<u8>>,
                                ParseError,
                            >(e));
                        },
                    }
                }
                if !first {
                    proof {
                        assert(other@.skip(oi as int).len() == other@.len() - oi);
                        if oi < olen {
                            assert(other@.skip(oi as int)[0] == other@[oi as int]);
                            assert(other@.skip(oi as int).skip(1) =~= other@.skip(oi as int + 1));
                        }
                    }
                    if oi >= olen {
                        return false;
                    }
                    if other[oi] != 46 {
                        return false;
                    }
                    oi = oi + 1;
                }
                // From here the comparison still owed is `labels_match` of
                // the remaining chain against the string from `oi` on.
                let ghost sfx: Seq<u8> = other@.skip(oi as int);
                proof {
                    match after {
                        Ok(r2) => {
                            assert(name_matches(self.sbuf(), self.sstart(), other@)
                                == labels_match(seq![label] + r2, sfx));
                            assert(labels_match(seq![label] + r2, sfx) == (sfx.len() >= len
                                && eq_fold(label, sfx.take(len as int)) && tail_match(
                                r2,
                                sfx.skip(len as int),
                            )));
                        },
                        Err(_) => {},
                    }
                    assert(sfx.len() == other@.len() - oi);
                }
                if olen - oi < len {
                    return false;
                }
                let mut k: usize = 0;
                while k < len
                    invariant
                        buf@ == self.sbuf(),
                        n == buf@.len(),
                        olen == other@.len(),
                        k <= len,
                        i + 1 + len <= n,
                        oi + len <= olen,
                        label == buf@.subrange(i as int + 1, i as int + 1 + len as int),
                        sfx == other@.skip(oi as int),
                        label.len() == len,
                        match after {
                            Ok(r2) => name_matches(self.sbuf(), self.sstart(), other@) == (eq_fold(
                                label,
                                sfx.take(len as int),
                            ) && tail_match(r2, sfx.skip(len as int))),
                            Err(_) => !name_matches(self.sbuf(), self.sstart(), other@),
                        },
                        forall|j: int|
                            0 <= j < k ==> #[trigger] fold_case(label[j]) == fold_case(sfx[j]),
                    decreases len - k,
                {
                    let lb = fold_byte(buf[i + 1 + k]);
                    let ob = fold_byte(other[oi + k]);
                    proof {
                        assert(label[k as int] == buf@[i as int + 1 + k as int]);
                        assert(sfx[k as int] == other@[oi as int + k as int]);
                    }
                    if lb != ob {
                        proof {
                            assert(sfx.take(len as int)[k as int] == sfx[k as int]);
                            assert(!eq_fold(label, sfx.take(len as int)));
                        }
                        return false;
                    }
                    k = k + 1;
                }
                proof {
                    assert(forall|j: int|
                        0 <= j < len ==> #[trigger] fold_case(sfx.take(len as int)[j])
                            == fold_case(sfx[j]));
                    assert(eq_fold(label, sfx.take(len as int)));
                    assert(sfx.skip(len as int) =~= other@.skip(oi as int + len as int));
                }
                first = false;
                oi = oi + len;
                i = i + 1 + len;
            }
        }
    }

    /// Compares the name against a string, case-insensitively for ASCII
    /// letters, by comparing the string's bytes.
    pub fn eq_str(&self, other: &str) -> (r: bool)
        ensures
            r == name_matches(self.sbuf(), self.sstart(), other.spec_bytes()),
    {
        self.eq_bytes(other.as_bytes())
    }
}

} // verus!
