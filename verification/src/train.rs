use vstd::prelude::*;
use crate::autograd::{self, Graph, Term, ValueRef};
use crate::model::{self, sum_all};
use crate::tokenizer::{self, Token, TokenId, Tokenizer, BOS_ID};

verus! {

/// `c` is a letter that `vocabulary` maps to an id: alphabetic, with a low byte no
/// smaller than that of `a` (on ASCII, one of `a` to `z`).
pub open spec fn is_letter(c: char) -> bool {
    tokenizer::alphabetic(c) && tokenizer::low_byte(c) >= tokenizer::LOWER_A_ASCII_VALUE
}

/// The ids of a document: BOS, the ids of its characters, BOS.
pub open spec fn doc_ids(doc: Seq<char>) -> Seq<TokenId> {
    seq![BOS_ID] + doc.map_values(
        |c: char| (tokenizer::low_byte(c) - tokenizer::LOWER_A_ASCII_VALUE) as usize,
    ) + seq![BOS_ID]
}

/// The document to train on at `step`: the documents are taken in turn.
pub fn doc_index(step: usize, n_docs: usize) -> (i: usize)
    requires
        n_docs > 0,
    ensures
        i == step % n_docs,
        i < n_docs,
{
    step % n_docs
}

/// The token ids of a document of letters, framed by BOS on both sides.
pub fn encode_doc(doc: &Vec<char>) -> (ids: Vec<TokenId>)
    requires
        forall|k: int| 0 <= k < doc@.len() ==> is_letter(#[trigger] doc@[k]),
    ensures
        ids@ == doc_ids(doc@),
{
    let ghost middle = doc@.map_values(
        |c: char| (tokenizer::low_byte(c) - tokenizer::LOWER_A_ASCII_VALUE) as usize,
    );
    let mut ids: Vec<TokenId> = Vec::new();
    ids.push(Tokenizer::vocabulary(Token::Bos).unwrap());
    let mut k: usize = 0;
    while k < doc.len()
        invariant
            k <= doc@.len(),
            forall|q: int| 0 <= q < doc@.len() ==> is_letter(#[trigger] doc@[q]),
            middle == doc@.map_values(
                |c: char| (tokenizer::low_byte(c) - tokenizer::LOWER_A_ASCII_VALUE) as usize,
            ),
            ids@ == seq![BOS_ID] + middle.take(k as int),
        decreases doc@.len() - k,
    {
        let c = doc[k];
        assert(is_letter(doc@[k as int]));
        let id = Tokenizer::vocabulary(Token::C(c)).unwrap();
        ids.push(id);
        k += 1;
        assert(middle.take(k as int) =~= middle.take(k - 1).push(id));
        assert(ids@ =~= seq![BOS_ID] + middle.take(k as int));
    }
    ids.push(Tokenizer::vocabulary(Token::Bos).unwrap());
    assert(middle.take(doc@.len() as int) =~= middle);
    assert(ids@ =~= doc_ids(doc@));
    ids
}

/// `encode_doc` on any document: `None` when one of its characters is no letter
/// that `vocabulary` maps to an id.
pub fn try_encode_doc(doc: &Vec<char>) -> (r: Option<Vec<TokenId>>)
    ensures
        r is Some <==> forall|k: int| 0 <= k < doc@.len() ==> is_letter(#[trigger] doc@[k]),
        r matches Some(ids) ==> ids@ == doc_ids(doc@),
{
    let mut k: usize = 0;
    while k < doc.len()
        invariant
            k <= doc@.len(),
            forall|q: int| 0 <= q < k ==> is_letter(#[trigger] doc@[q]),
        decreases doc@.len() - k,
    {
        match Tokenizer::checked_vocabulary(Token::C(doc[k])) {
            Some(Some(_)) => {},
            _ => {
                assert(!is_letter(doc@[k as int]));
                return None;
            },
        }
        k += 1;
    }
    Some(encode_doc(doc))
}

/// The (input, target) pairs of one training example: each of the first
/// `min(block_size, ids.len() - 1)` positions with the id that follows it.
pub fn training_pairs(ids: &Vec<TokenId>, block_size: usize) -> (pairs: Vec<(TokenId, TokenId)>)
    requires
        ids@.len() >= 1,
    ensures
        pairs@.len() == model::min_len(block_size as int, ids@.len() - 1),
        forall|p: int| 0 <= p < pairs@.len() ==> #[trigger] pairs@[p] == (ids@[p], ids@[p + 1]),
{
    let last = ids.len() - 1;
    let n = if block_size <= last { block_size } else { last };
    let mut pairs: Vec<(TokenId, TokenId)> = Vec::new();
    let mut p: usize = 0;
    while p < n
        invariant
            n <= last,
            last == ids@.len() - 1,
            n == model::min_len(block_size as int, ids@.len() - 1),
            p <= n,
            pairs@.len() == p,
            forall|q: int| 0 <= q < p ==> #[trigger] pairs@[q] == (ids@[q], ids@[q + 1]),
        decreases n - p,
    {
        pairs.push((ids[p], ids[p + 1]));
        p += 1;
    }
    pairs
}

/// The loss at one position: the negated probability of the target.
pub fn position_loss(graph: &mut Graph, probs: &Vec<ValueRef>, target: TokenId) -> (r: ValueRef)
    requires
        autograd::well_formed(old(graph)@),
        model::valid_refs(old(graph)@, probs@),
        target < probs@.len(),
    ensures
        autograd::well_formed(final(graph)@),
        autograd::extends(old(graph)@, final(graph)@),
        r.index < final(graph)@.len(),
        autograd::tm(final(graph)@, r) == Term::Mul(
            Box::new(autograd::tm(old(graph)@, probs@[target as int])),
            Box::new(Term::Constant(-1i128, 1u64)),
        ),
{
    probs[target].neg(graph)
}

/// The mean of the losses: `1/n` times their running sum.
pub fn mean_loss(graph: &mut Graph, losses: &Vec<ValueRef>) -> (r: ValueRef)
    requires
        autograd::well_formed(old(graph)@),
        model::valid_refs(old(graph)@, losses@),
    ensures
        autograd::well_formed(final(graph)@),
        autograd::extends(old(graph)@, final(graph)@),
        r.index < final(graph)@.len(),
        autograd::tm(final(graph)@, r) == Term::Mul(
            Box::new(Term::Constant(1i128, losses@.len() as u64)),
            Box::new(model::sum_terms(model::terms_of(old(graph)@, losses@))),
        ),
{
    let ghost g0 = graph@;
    let scale = ValueRef::constant(1, losses.len() as u64, graph);
    let ghost g1 = graph@;
    proof {
        model::lemma_refs_stable(g0, g1, losses@);
        assert(model::terms_of(g1, losses@) =~= model::terms_of(g0, losses@));
    }
    let total = sum_all(graph, losses);
    let ghost g2 = graph@;
    proof {
        autograd::lemma_term_stable(g1, g2, scale.index);
    }
    let r = scale.mul(total, graph);
    proof {
        autograd::lemma_extends_trans(g0, g1, g2);
        autograd::lemma_extends_trans(g0, g2, graph@);
    }
    r
}

} // verus!
