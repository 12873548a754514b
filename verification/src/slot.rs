//! The per-key storage cell.
//!
//! A [`ValOrVec`] starts as a single scalar text and is irreversibly promoted
//! to an ordered list the first time the same key repeats. Its view is the
//! sequence of value texts it holds, in arrival order.

use vstd::prelude::*;

verus! {

/// All value texts seen for one key: a lone scalar, or an ordered list once
/// the key has repeated.
#[derive(Debug, PartialEq, Eq)]
pub enum ValOrVec {
    /// The key has been seen once.
    Scalar(String),
    /// The key has been seen more than once; texts in arrival order.
    List(Vec<String>),
}

impl View for ValOrVec {
    type V = Seq<Seq<char>>;

    open spec fn view(&self) -> Seq<Seq<char>> {
        match self {
            ValOrVec::Scalar(t) => seq![t@],
            ValOrVec::List(ts) => ts.deep_view(),
        }
    }
}

impl ValOrVec {
    /// Record one more value text for the key.
    ///
    /// A `Scalar` is replaced by a two-element `List` of the old and the new
    /// text; a `List` grows by one. The cell is a `List` afterwards in either
    /// case: the promotion never reverses.
    pub fn push(&mut self, new_val: String)
        ensures
            final(self)@ == old(self)@.push(new_val@),
            *final(self) is List,
    {
        let mut taken = ValOrVec::List(Vec::new());
        core::mem::swap(self, &mut taken);
        match taken {
            ValOrVec::Scalar(old_val) => {
                let mut texts: Vec<String> = Vec::new();
                texts.push(old_val);
                texts.push(new_val);
                *self = ValOrVec::List(texts);
                assert(self@ =~= old(self)@.push(new_val@));
            }
            ValOrVec::List(mut texts) => {
                texts.push(new_val);
                *self = ValOrVec::List(texts);
                assert(self@ =~= old(self)@.push(new_val@));
            }
        }
    }

    /// The lone text, if the key never repeated; `None` once the cell holds
    /// a list, since a single-valued target cannot take several values.
    pub fn as_single(&self) -> (r: Option<&String>)
        ensures
            match r {
                Some(t) => self is Scalar && self@ == seq![t@],
                None => self is List,
            },
    {
        match self {
            ValOrVec::Scalar(t) => Some(t),
            ValOrVec::List(_) => None,
        }
    }

    /// The lone text, if the cell holds exactly one.
    pub fn single_text(&self) -> (r: Option<&String>)
        ensures
            match r {
                Some(t) => self@.len() == 1 && t@ == self@[0],
                None => self@.len() != 1,
            },
    {
        match self {
            ValOrVec::Scalar(t) => Some(t),
            ValOrVec::List(ts) => {
                if ts.len() == 1 {
                    Some(&ts[0])
                } else {
                    None
                }
            }
        }
    }

    /// The texts as a sequence: a scalar yields a one-element sequence, a
    /// list yields its elements in arrival order. This is what lets a target
    /// typed as a sequence accept a lone key and a repeated key uniformly.
    pub fn into_sequence(self) -> (r: Vec<String>)
        ensures
            r.deep_view() == self@,
    {
        match self {
            ValOrVec::Scalar(t) => {
                let mut texts: Vec<String> = Vec::new();
                texts.push(t);
                proof {
                    assert(texts.deep_view() =~= self@);
                }
                texts
            }
            ValOrVec::List(ts) => ts,
        }
    }

    /// How many texts the cell holds.
    pub fn len(&self) -> (n: usize)
        ensures
            n == self@.len(),
    {
        match self {
            ValOrVec::Scalar(_) => 1,
            ValOrVec::List(ts) => ts.len(),
        }
    }
}

/// A consuming cursor over the texts of a [`ValOrVec`], in arrival order.
/// Its view is the sequence of texts not yet handed out.
#[derive(Debug)]
pub enum IntoIter {
    /// At most one text left.
    Scalar(Option<String>),
    /// The remaining texts are those from the cursor position on.
    List(Vec<String>, usize),
}

impl View for IntoIter {
    type V = Seq<Seq<char>>;

    open spec fn view(&self) -> Seq<Seq<char>> {
        match self {
            IntoIter::Scalar(o) => match o {
                Some(t) => seq![t@],
                None => Seq::empty(),
            },
            IntoIter::List(ts, pos) => ts.deep_view().skip(*pos as int),
        }
    }
}

impl IntoIter {
    /// The cursor position never passes the end.
    pub open spec fn wf(&self) -> bool {
        self matches IntoIter::List(ts, pos) ==> pos <= ts.len()
    }

    /// A cursor over all texts of the cell.
    pub fn new(vv: ValOrVec) -> (r: IntoIter)
        ensures
            r.wf(),
            r@ == vv@,
    {
        match vv {
            ValOrVec::Scalar(t) => IntoIter::Scalar(Some(t)),
            ValOrVec::List(ts) => {
                let r = IntoIter::List(ts, 0);
                proof {
                    assert(r@ =~= vv@);
                }
                r
            }
        }
    }

    /// Hand out the next text, front first.
    pub fn next(&mut self) -> (r: Option<String>)
        requires
            old(self).wf(),
        ensures
            final(self).wf(),
            match r {
                Some(t) => old(self)@.len() > 0 && t@ == old(self)@[0]
                    && final(self)@ == old(self)@.drop_first(),
                None => old(self)@.len() == 0 && final(self)@ == old(self)@,
            },
    {
        match self {
            IntoIter::Scalar(o) => {
                let mut taken: Option<String> = None;
                core::mem::swap(o, &mut taken);
                proof {
                    if taken is Some {
                        assert(final(self)@ =~= old(self)@.drop_first());
                    }
                }
                taken
            }
            IntoIter::List(ts, pos) => {
                if *pos < ts.len() {
                    let t = ts[*pos].clone();
                    *pos = *pos + 1;
                    proof {
                        assert(final(self)@ =~= old(self)@.drop_first());
                        assert(t@ == old(self)@[0]);
                    }
                    Some(t)
                } else {
                    None
                }
            }
        }
    }
}

} // verus!
