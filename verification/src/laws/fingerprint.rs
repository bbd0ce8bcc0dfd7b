//! What holds of the fingerprint by which contents are told apart.

use vstd::prelude::*;

use crate::document::{content_hash, hash_of};
use crate::text::numeral;
use std::collections::hash_map::DefaultHasher;
use vstd::std_specs::hash::DefaultHasherAdditionalSpecFns;
use vstd::utf8::{encode_utf8, encode_utf8_decode_utf8};

verus! {

/// What the fingerprint of a content is the hash of: put together, the bytes that the
/// hasher is fed are those of the whole text and the one that ends it. Gives them in
/// the parts in which they are fed.
pub proof fn law_fingerprint_is_of_the_whole_text(content: &str, r: String) -> (fed: Seq<Seq<u8>>)
    requires
        call_ensures(content_hash, (content,), r),
    ensures
        r@ == hash_of(content@),
        hash_of(content@) == numeral(DefaultHasher::spec_finish(fed) as nat, 16),
        fed.flatten() == encode_utf8(content@).push(0xff),
{
    let fed = seq![encode_utf8(content@), seq![0xffu8]];
    assert(fed.drop_first() =~= seq![seq![0xffu8]]);
    assert(fed.drop_first().drop_first() =~= Seq::<Seq<u8>>::empty());
    reveal_with_fuel(Seq::<_>::flatten, 3);
    assert(fed.flatten() =~= encode_utf8(content@).push(0xff));
    fed
}

/// Two contents never feed the hasher the same bytes, unless they are the same.
pub proof fn law_fingerprint_tells_texts_apart(
    a: &str,
    b: &str,
    r: String,
    s: String,
) -> (fed: (Seq<Seq<u8>>, Seq<Seq<u8>>))
    requires
        call_ensures(content_hash, (a,), r),
        call_ensures(content_hash, (b,), s),
    ensures
        r@ == numeral(DefaultHasher::spec_finish(fed.0) as nat, 16),
        s@ == numeral(DefaultHasher::spec_finish(fed.1) as nat, 16),
        fed.0.flatten() == fed.1.flatten() <==> a@ == b@,
{
    let x = law_fingerprint_is_of_the_whole_text(a, r);
    let y = law_fingerprint_is_of_the_whole_text(b, s);
    if x.flatten() == y.flatten() {
        assert(encode_utf8(a@) =~= x.flatten().drop_last());
        assert(encode_utf8(b@) =~= y.flatten().drop_last());
        encode_utf8_decode_utf8(a@);
        encode_utf8_decode_utf8(b@);
    }
    (x, y)
}

} // verus!
