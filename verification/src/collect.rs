//! The entry collector's policy: which of a directory's immediate children
//! appear in a listing. Names beginning with a dot are hidden unless the
//! show-all option is set, in which case the synthetic `.` and `..` are
//! placed in front of everything else.

use vstd::prelude::*;
use vstd::string::StrSliceExecFns;
use vstd::string::StringExecFns;
use crate::is_hidden;
use crate::sort::lemma_filter_push;

verus! {

/// The synthetic name of the directory itself.
pub open spec fn dot() -> Seq<char> {
    seq!['.']
}

/// The synthetic name of the parent directory.
pub open spec fn dot_dot() -> Seq<char> {
    seq!['.', '.']
}

/// The collector's result on the raw child names of one directory, before
/// sorting: hidden names dropped, or everything kept with `.` and `..`
/// prepended.
pub open spec fn spec_collect(raw: Seq<Seq<char>>, show_all: bool) -> Seq<Seq<char>> {
    if show_all {
        seq![dot(), dot_dot()] + raw
    } else {
        raw.filter(|n: Seq<char>| !is_hidden(n))
    }
}

/// Decide whether one name is hidden.
pub fn name_is_hidden(name: &String) -> (r: bool)
    ensures
        r == is_hidden(name@),
{
    if name.as_str().is_empty() {
        false
    } else {
        let c = name.as_str().get_char(0);
        c == '.'
    }
}

/// Apply the hidden-entry policy to the raw child names of a directory.
#[verifier::loop_isolation(false)]
pub fn collect_entries(raw: &Vec<String>, show_all: bool) -> (listing: Vec<String>)
    ensures
        listing.deep_view() == spec_collect(raw.deep_view(), show_all),
{
    let ghost rawv = raw.deep_view();
    let mut listing: Vec<String> = Vec::new();
    if show_all {
        proof {
            reveal_strlit(".");
            reveal_strlit("..");
            assert("."@ =~= dot());
            assert(".."@ =~= dot_dot());
        }
        listing.push(String::from_str("."));
        listing.push(String::from_str(".."));
        proof {
            assert(listing.deep_view() =~= seq![dot(), dot_dot()] + rawv.take(0));
        }
        let mut i: usize = 0;
        while i < raw.len()
            invariant
                i <= raw.len(),
                listing.deep_view() == seq![dot(), dot_dot()] + rawv.take(i as int),
            decreases raw.len() - i,
        {
            let ghost pre = listing.deep_view();
            listing.push(raw[i].clone());
            proof {
                assert forall|k: int| 0 <= k < listing.deep_view().len() implies listing.deep_view()[k]
                    == (seq![dot(), dot_dot()] + rawv.take(i + 1))[k] by {
                    if k < pre.len() {
                        assert(listing.deep_view()[k] == pre[k]);
                    } else {
                        assert(listing.deep_view()[k] == rawv[i as int]);
                    }
                }
                assert(listing.deep_view() =~= seq![dot(), dot_dot()] + rawv.take(i + 1));
            }
            i = i + 1;
        }
        proof {
            assert(rawv.take(raw.len() as int) =~= rawv);
        }
    } else {
        proof {
            reveal(Seq::filter);
            assert(rawv.take(0).filter(|n: Seq<char>| !is_hidden(n)) =~= Seq::<Seq<char>>::empty());
        }
        let mut i: usize = 0;
        while i < raw.len()
            invariant
                i <= raw.len(),
                listing.deep_view() == rawv.take(i as int).filter(|n: Seq<char>| !is_hidden(n)),
            decreases raw.len() - i,
        {
            proof {
                lemma_filter_push(rawv.take(i as int), |n: Seq<char>| !is_hidden(n), rawv[i as int]);
                assert(rawv.take(i + 1) =~= rawv.take(i as int).push(rawv[i as int]));
            }
            if !name_is_hidden(&raw[i]) {
                listing.push(raw[i].clone());
                proof {
                    assert(listing.deep_view() =~= rawv.take(i as int).filter(
                        |n: Seq<char>| !is_hidden(n),
                    ) + seq![rawv[i as int]]);
                }
            } else {
                proof {
                    assert(rawv.take(i as int).filter(|n: Seq<char>| !is_hidden(n))
                        + Seq::<Seq<char>>::empty() =~= rawv.take(i as int).filter(
                        |n: Seq<char>| !is_hidden(n),
                    ));
                }
            }
            i = i + 1;
        }
        proof {
            assert(rawv.take(raw.len() as int) =~= rawv);
        }
    }
    listing
}

/// Law: with the show-all option unset, nothing the collector returns is
/// hidden.
pub proof fn lemma_collect_no_hidden(raw: Seq<Seq<char>>, i: int)
    requires
        0 <= i < spec_collect(raw, false).len(),
    ensures
        !is_hidden(spec_collect(raw, false)[i]),
{
    broadcast use vstd::seq_lib::group_filter_ensures;

}

/// Law: with the show-all option set, `.` and `..` stand first and appear
/// exactly once each, provided the raw names (a directory read) did not
/// contain them.
pub proof fn lemma_collect_show_all(raw: Seq<Seq<char>>)
    requires
        forall|i: int|
            0 <= i < raw.len() ==> #[trigger] raw[i] != dot() && #[trigger] raw[i] != dot_dot(),
    ensures
        spec_collect(raw, true).len() == raw.len() + 2,
        spec_collect(raw, true)[0] == dot(),
        spec_collect(raw, true)[1] == dot_dot(),
        forall|i: int|
            2 <= i < spec_collect(raw, true).len() ==> #[trigger] spec_collect(raw, true)[i]
                != dot() && #[trigger] spec_collect(raw, true)[i] != dot_dot(),
{
    assert forall|i: int| 2 <= i < spec_collect(raw, true).len() implies #[trigger] spec_collect(
        raw,
        true,
    )[i] != dot() && #[trigger] spec_collect(raw, true)[i] != dot_dot() by {
        assert(spec_collect(raw, true)[i] == raw[i - 2]);
    }
}

} // verus!
