//! Theorems about name encodings.
//!
//! These relate the traversal model to the shapes a well-formed message puts
//! on the wire: a plain label chain decodes to exactly its labels, and a
//! chain that ends in a compression pointer decodes as if the pointed-to
//! name stood inline.

use crate::name::ParseError;
use crate::name::dotted_bytes;
use crate::name::eq_fold;
use crate::name::fold_case;
use crate::name::labels_match;
use crate::name::name_labels;
use crate::name::name_matches;
use crate::name::rendered;
use crate::name::resolve_labels;
use crate::name::spec_is_pointer;
use crate::name::spec_label_len;
use crate::name::spec_pointer_target;
use crate::name::tail_match;
use vstd::prelude::*;

verus! {

/// A pointer-free encoding of `labels` beginning at `i`: each label's length
/// byte followed by its bytes, in order, closed by a zero length byte.
pub open spec fn plain_encoding(buf: Seq<u8>, i: int, labels: Seq<Seq<u8>>) -> bool
    decreases labels.len(),
{
    if labels.len() == 0 {
        0 <= i < buf.len() && buf[i] == 0
    } else {
        let len = labels[0].len() as int;
        &&& 1 <= len <= 63
        &&& 0 <= i
        &&& i + 1 + len <= buf.len()
        &&& buf[i] == labels[0].len() as u8
        &&& buf.subrange(i + 1, i + 1 + len) == labels[0]
        &&& plain_encoding(buf, i + 1 + len, labels.drop_first())
    }
}

/// An encoding of `prefix` labels whose chain then ends in a compression
/// pointer to `target`.
pub open spec fn encoding_with_pointer(
    buf: Seq<u8>,
    i: int,
    prefix: Seq<Seq<u8>>,
    target: int,
) -> bool
    decreases prefix.len(),
{
    if prefix.len() == 0 {
        &&& 0 <= i
        &&& i + 2 <= buf.len()
        &&& spec_is_pointer(buf[i])
        &&& spec_pointer_target(buf, i) == target
    } else {
        let len = prefix[0].len() as int;
        &&& 1 <= len <= 63
        &&& 0 <= i
        &&& i + 1 + len <= buf.len()
        &&& buf[i] == prefix[0].len() as u8
        &&& buf.subrange(i + 1, i + 1 + len) == prefix[0]
        &&& encoding_with_pointer(buf, i + 1 + len, prefix.drop_first(), target)
    }
}

/// Resolving a pointer-free encoding yields exactly its labels, whatever the
/// jump budget.
pub proof fn lemma_plain_resolve(buf: Seq<u8>, i: int, labels: Seq<Seq<u8>>, jumps: nat)
    requires
        plain_encoding(buf, i, labels),
    ensures
        resolve_labels(buf, i, jumps) == Ok::<Seq<Seq<u8>>, ParseError>(labels),
    decreases labels.len(),
{
    if labels.len() == 0 {
        assert(labels =~= Seq::<Seq<u8>>::empty());
    } else {
        let len = labels[0].len() as int;
        lemma_plain_resolve(buf, i + 1 + len, labels.drop_first(), jumps);
        assert(seq![labels[0]] + labels.drop_first() =~= labels);
    }
}

/// A larger jump budget never changes a traversal that succeeds: the cap on
/// pointer jumps only ever cuts off traversals that would not terminate.
pub proof fn lemma_resolve_budget_monotone(buf: Seq<u8>, i: int, small: nat, large: nat)
    requires
        small <= large,
        resolve_labels(buf, i, small) is Ok,
    ensures
        resolve_labels(buf, i, large) == resolve_labels(buf, i, small),
    decreases small, buf.len() - i,
{
    if 0 <= i < buf.len() {
        if spec_is_pointer(buf[i]) {
            if i + 1 < buf.len() && small > 0 && spec_pointer_target(buf, i) <= buf.len() {
                lemma_resolve_budget_monotone(
                    buf,
                    spec_pointer_target(buf, i),
                    (small - 1) as nat,
                    (large - 1) as nat,
                );
            }
        } else {
            let len = spec_label_len(buf[i]);
            if len > 0 && i + 1 + len <= buf.len() {
                lemma_resolve_budget_monotone(buf, i + 1 + len, small, large);
            }
        }
    }
}

/// Round-trip rendering: a name encoded as a plain label chain decodes to
/// those labels in encoding order, and renders as their dotted text.
pub proof fn lemma_plain_round_trip(buf: Seq<u8>, i: int, labels: Seq<Seq<u8>>)
    requires
        plain_encoding(buf, i, labels),
    ensures
        name_labels(buf, i) == Ok::<Seq<Seq<u8>>, ParseError>(labels),
        rendered(buf, i) == Ok::<Seq<u8>, ParseError>(dotted_bytes(labels)),
{
    lemma_plain_resolve(buf, i, labels, buf.len() as nat);
}

/// A chain that ends in a pointer lies in a buffer of at least two bytes.
proof fn lemma_encoding_with_pointer_nonempty(
    buf: Seq<u8>,
    i: int,
    prefix: Seq<Seq<u8>>,
    target: int,
)
    requires
        encoding_with_pointer(buf, i, prefix, target),
    ensures
        buf.len() >= 2,
    decreases prefix.len(),
{
    if prefix.len() > 0 {
        lemma_encoding_with_pointer_nonempty(
            buf,
            i + 1 + prefix[0].len() as int,
            prefix.drop_first(),
            target,
        );
    }
}

/// Resolving a chain that ends in a pointer to a plain name yields the
/// prefix labels followed by the plain name's labels, for any positive jump
/// budget.
proof fn lemma_pointer_resolve(
    buf: Seq<u8>,
    i: int,
    prefix: Seq<Seq<u8>>,
    target: int,
    suffix: Seq<Seq<u8>>,
    jumps: nat,
)
    requires
        encoding_with_pointer(buf, i, prefix, target),
        plain_encoding(buf, target, suffix),
        jumps >= 1,
    ensures
        resolve_labels(buf, i, jumps) == Ok::<Seq<Seq<u8>>, ParseError>(prefix + suffix),
    decreases prefix.len(),
{
    if prefix.len() == 0 {
        lemma_plain_resolve(buf, target, suffix, (jumps - 1) as nat);
        assert(prefix + suffix =~= suffix);
    } else {
        let len = prefix[0].len() as int;
        lemma_pointer_resolve(buf, i + 1 + len, prefix.drop_first(), target, suffix, jumps);
        assert(seq![prefix[0]] + (prefix.drop_first() + suffix) =~= prefix + suffix);
    }
}

/// Pointer resolution: a name whose label chain ends in a compression
/// pointer to an earlier, independently valid plain name decodes to its own
/// labels followed by the plain name's labels — exactly what the fully
/// inlined encoding decodes to — and so renders identically to it.
pub proof fn lemma_pointer_resolution(
    buf: Seq<u8>,
    i: int,
    prefix: Seq<Seq<u8>>,
    target: int,
    suffix: Seq<Seq<u8>>,
)
    requires
        encoding_with_pointer(buf, i, prefix, target),
        plain_encoding(buf, target, suffix),
    ensures
        name_labels(buf, i) == Ok::<Seq<Seq<u8>>, ParseError>(prefix + suffix),
        rendered(buf, i) == Ok::<Seq<u8>, ParseError>(dotted_bytes(prefix + suffix)),
        name_labels(buf, target) == Ok::<Seq<Seq<u8>>, ParseError>(suffix),
{
    lemma_encoding_with_pointer_nonempty(buf, i, prefix, target);
    lemma_pointer_resolve(buf, i, prefix, target, suffix, buf.len() as nat);
    lemma_plain_resolve(buf, target, suffix, buf.len() as nat);
}

/// The lock-step comparison of a label chain against a string holds exactly
/// when the string equals the chain's dotted text up to ASCII case.
pub proof fn lemma_match_is_folded_text(labels: Seq<Seq<u8>>, s: Seq<u8>)
    ensures
        labels_match(labels, s) == eq_fold(dotted_bytes(labels), s),
    decreases labels.len(),
{
    if labels.len() == 0 {
        assert(eq_fold(Seq::<u8>::empty(), s) == (s.len() == 0));
    } else if labels.len() == 1 {
        let first = labels[0];
        let len = first.len() as int;
        assert(labels.drop_first().len() == 0);
        if s.len() == len {
            assert(s.take(len) =~= s);
            assert(s.skip(len).len() == 0);
        }
        if labels_match(labels, s) {
            assert(s.skip(len).len() == 0);
            assert(s.len() == len);
        }
        if eq_fold(first, s) {
            assert(s.len() == len);
        }
    } else {
        let first = labels.first();
        let len = first.len() as int;
        let rest = labels.drop_first();
        let dotted_rest = dotted_bytes(rest);
        let dotted = dotted_bytes(labels);
        assert(dotted == first + seq![46u8] + dotted_rest);
        lemma_match_is_folded_text(rest, s.skip(len + 1));
        if labels_match(labels, s) {
            assert(s.skip(len).skip(1) =~= s.skip(len + 1));
            assert(tail_match(rest, s.skip(len)));
            assert(s.skip(len)[0] == 46);
            assert(eq_fold(dotted_rest, s.skip(len + 1)));
            assert(s.len() == dotted.len());
            assert forall|k: int| 0 <= k < dotted.len() implies #[trigger] fold_case(dotted[k])
                == fold_case(s[k]) by {
                if k < len {
                    assert(dotted[k] == first[k]);
                    assert(s.take(len)[k] == s[k]);
                    assert(fold_case(first[k]) == fold_case(s.take(len)[k]));
                } else if k == len {
                    assert(dotted[k] == 46);
                    assert(s[k] == s.skip(len)[0]);
                } else {
                    assert(dotted[k] == dotted_rest[k - len - 1]);
                    assert(s[k] == s.skip(len + 1)[k - len - 1]);
                    assert(fold_case(dotted_rest[k - len - 1]) == fold_case(
                        s.skip(len + 1)[k - len - 1],
                    ));
                }
            }
            assert(eq_fold(dotted, s));
        }
        if eq_fold(dotted, s) {
            assert(s.len() == dotted.len());
            assert(s.len() >= len + 1);
            assert(s.skip(len).skip(1) =~= s.skip(len + 1));
            assert forall|k: int| 0 <= k < len implies #[trigger] fold_case(first[k]) == fold_case(
                s.take(len)[k],
            ) by {
                assert(dotted[k] == first[k]);
                assert(s.take(len)[k] == s[k]);
                assert(fold_case(dotted[k]) == fold_case(s[k]));
            }
            assert(eq_fold(first, s.take(len)));
            assert(dotted[len] == 46);
            assert(fold_case(dotted[len]) == fold_case(s[len]));
            assert(s[len] == 46);
            assert(s.skip(len)[0] == 46);
            assert forall|k: int| 0 <= k < dotted_rest.len() implies #[trigger] fold_case(
                dotted_rest[k],
            ) == fold_case(s.skip(len + 1)[k]) by {
                assert(dotted[k + len + 1] == dotted_rest[k]);
                assert(s.skip(len + 1)[k] == s[k + len + 1]);
                assert(fold_case(dotted[k + len + 1]) == fold_case(s[k + len + 1]));
            }
            assert(eq_fold(dotted_rest, s.skip(len + 1)));
            assert(labels_match(rest, s.skip(len + 1)));
            assert(tail_match(rest, s.skip(len)));
            assert(labels_match(labels, s));
        }
    }
}

/// Case-insensitive equality agrees with rendering: a name compares equal to
/// a string exactly when the name renders and the string equals the rendered
/// dotted text up to ASCII case.
pub proof fn lemma_eq_agrees_with_render(buf: Seq<u8>, start: int, s: Seq<u8>)
    ensures
        name_matches(buf, start, s) == match rendered(buf, start) {
            Ok(text) => eq_fold(text, s),
            Err(_) => false,
        },
{
    match name_labels(buf, start) {
        Ok(labels) => {
            lemma_match_is_folded_text(labels, s);
        },
        Err(_) => {},
    }
}

} // verus!
