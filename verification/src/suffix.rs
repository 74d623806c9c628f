//! The repeated substrings of a text, as the enhanced suffix array finds them.

use vstd::prelude::*;

verus! {

/// The length from which on a text is too long for the suffix array, which
/// indexes with 32 bits and a sign.
pub const TEXT_LIMIT: usize = 0x7FFF_FFFF;

/// What `esaxx_rs::suffix` gives for `text`: nothing where it reports an
/// error, else the nodes of the suffix tree in the order in which the
/// crate's iterator hands them out, each as the run of characters that it
/// spells and the number of places where that run stands in the text.
pub uninterp spec fn suffix_nodes(text: Seq<char>) -> Option<Seq<(Seq<char>, u32)>>;

/// Calls `esaxx_rs::suffix` on `text` and collects what its iterator gives.
/// Whether the crate reports success, and what it then hands out, is taken
/// to depend on the text alone: both are [`suffix_nodes`] of the text. The
/// crate counts the characters of the text in 32 bits with a sign and adds
/// one to the count, so texts from [`TEXT_LIMIT`] on are kept out. A failed
/// allocation, which the crate reports as an error too, is left out of
/// account, as it is everywhere in this library.
#[verifier::external_body]
pub(crate) fn find_suffix_nodes(text: &str) -> (found: Option<Vec<(Vec<char>, u32)>>)
    requires
        text@.len() < TEXT_LIMIT,
    ensures
        found is Some == suffix_nodes(text@) is Some,
        found matches Some(nodes) ==> suffix_nodes(text@) == Some(nodes.deep_view()),
{
    match esaxx_rs::suffix(text) {
        Ok(suffix) => Some(suffix.iter().map(|(chars, freq)| (chars.to_vec(), freq)).collect()),
        Err(_) => None,
    }
}

} // verus!
