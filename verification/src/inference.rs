use vstd::prelude::*;
use crate::tokenizer::{self, TokenId, Tokenizer, BOS_ID};

verus! {

/// One step of sampling a name: a sampled BOS ends the sample; any other id adds its
/// character and sampling goes on.
pub fn sample_step(sample: &mut Vec<char>, token_id: TokenId) -> (go_on: bool)
    requires
        token_id == BOS_ID || tokenizer::spec_to_char(token_id) < 256,
    ensures
        go_on == (token_id != BOS_ID),
        !go_on ==> final(sample)@ == old(sample)@,
        go_on ==> final(sample)@.len() == old(sample)@.len() + 1,
        go_on ==> final(sample)@.drop_last() == old(sample)@,
        go_on ==> final(sample)@.last() as u32 == tokenizer::spec_to_char(token_id),
{
    if token_id == BOS_ID {
        return false;
    }
    sample.push(Tokenizer::to_char(token_id));
    assert(sample@.drop_last() =~= old(sample)@);
    true
}

} // verus!
