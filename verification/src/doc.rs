//! The structured value tree that the engine serializes.
//!
//! An aggregate describes itself as a `Doc`: unsigned integers, text, lists
//! and objects (ordered key/value entries). The two wire formats — the
//! self-describing text encoding and the compact binary encoding — both
//! print and parse this one tree, so the format choice is made once, at the
//! serialization boundary.
use vstd::prelude::*;

verus! {

/// One node of the document tree.
pub enum Doc {
    /// A non-negative integer.
    UInt(u64),
    /// A piece of text.
    Text(String),
    /// An ordered list of documents.
    List(Vec<Doc>),
    /// An ordered sequence of named entries.
    Object(Vec<(String, Doc)>),
}

/// The mathematical shape of a document: what two `Doc`s must share to be
/// the same document, independent of heap identity.
#[verifier::ext_equal]
pub enum DocModel {
    UInt(u64),
    Text(Seq<char>),
    List(Seq<DocModel>),
    Object(Seq<(Seq<char>, DocModel)>),
}

/// The shape of a document, by structural recursion over the tree.
pub open spec fn doc_model(d: Doc) -> DocModel
    decreases d,
    via doc_model_decreases
{
    match d {
        Doc::UInt(n) => DocModel::UInt(n),
        Doc::Text(s) => DocModel::Text(s@),
        Doc::List(items) => DocModel::List(
            Seq::new(
                items@.len(),
                |i: int|
                    if 0 <= i < items@.len() {
                        doc_model(items@[i])
                    } else {
                        DocModel::UInt(0)
                    },
            ),
        ),
        Doc::Object(entries) => DocModel::Object(
            Seq::new(
                entries@.len(),
                |i: int|
                    if 0 <= i < entries@.len() {
                        (entries@[i].0@, doc_model(entries@[i].1))
                    } else {
                        (Seq::empty(), DocModel::UInt(0))
                    },
            ),
        ),
    }
}

#[via_fn]
proof fn doc_model_decreases(d: Doc) {
    broadcast use vstd::seq::axiom_seq_index_decreases;

    match d {
        Doc::List(items) => {
            assert forall|i: int| 0 <= i < items@.len() implies decreases_to!(d => items@[i]) by {
                assert(decreases_to!(d => items));
                assert(decreases_to!(items => items@));
                assert(decreases_to!(items@ => items@[i]));
            }
        }
        Doc::Object(entries) => {
            assert forall|i: int| 0 <= i < entries@.len() implies decreases_to!(
                d => entries@[i].1) by {
                assert(decreases_to!(d => entries));
                assert(decreases_to!(entries => entries@));
                assert(decreases_to!(entries@ => entries@[i]));
                assert(decreases_to!(entries@[i] => entries@[i].1));
            }
        }
        _ => {}
    }
}

impl View for Doc {
    type V = DocModel;

    open spec fn view(&self) -> DocModel {
        doc_model(*self)
    }
}

/// The shapes of a sequence of documents.
pub open spec fn models_of(s: Seq<Doc>) -> Seq<DocModel> {
    Seq::new(s.len(), |i: int| doc_model(s[i]))
}

/// The shapes of a sequence of named entries.
pub open spec fn entry_models_of(s: Seq<(String, Doc)>) -> Seq<(Seq<char>, DocModel)> {
    Seq::new(s.len(), |i: int| (s[i].0@, doc_model(s[i].1)))
}

/// A list's shape is the sequence of its elements' shapes.
pub broadcast proof fn lemma_list_model(items: Vec<Doc>)
    ensures
        (#[trigger] doc_model(Doc::List(items))) == DocModel::List(models_of(items@)),
{
    assert(doc_model(Doc::List(items))->List_0 =~= models_of(items@));
}

/// An object's shape is the sequence of its entries' shapes.
pub broadcast proof fn lemma_object_model(entries: Vec<(String, Doc)>)
    ensures
        (#[trigger] doc_model(Doc::Object(entries))) == DocModel::Object(
            entry_models_of(entries@),
        ),
{
    assert(doc_model(Doc::Object(entries))->Object_0 =~= entry_models_of(entries@));
}

} // verus!
