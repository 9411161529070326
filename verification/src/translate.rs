//! Translating places across the boundary of a call: from a place of the
//! callee to the place of the caller that it stands for.

use crate::algebra::Base;
use crate::assoc::{distinct_keys, lemma_mapped_set, mapped, seq_set, ListMap};
use crate::dep_matrix::{translator_view, Translator, TranslatorView};
use crate::mir::{argument_views, MirBody, Place, place_views, PlaceView, ProjectionElem};
use crate::regal::RETURN_PLACE;
use vstd::prelude::*;

verus! {

/// The place of the caller that a place of the callee stands for. The
/// return value stands for the destination of the call, unless the callee
/// returns nothing. A place in a formal argument stands for the same part of
/// the actual argument; but a place that the callee has changed only does so
/// if it is reached through a pointer. Other places stand for nothing in the
/// caller.
pub open spec fn translated_place(
    args: Seq<Option<PlaceView>>,
    destination: Option<PlaceView>,
    child: PlaceView,
    mutated: bool,
    arg_count: usize,
    returns_unit: bool,
) -> Option<PlaceView> {
    if child.local == RETURN_PLACE && child.projection.len() == 0 && returns_unit {
        None
    } else if child.local == RETURN_PLACE && child.projection.len() == 0 && destination is Some {
        destination
    } else if !(0 < child.local <= arg_count) || (mutated && !child.projection.contains(
        ProjectionElem::Deref,
    )) {
        None
    } else if child.local - 1 >= args.len() {
        None
    } else {
        match args[child.local - 1] {
            Some(parent) => Some(
                PlaceView { local: parent.local, projection: parent.projection + child.projection },
            ),
            None => None,
        }
    }
}

/// The destination of a call without the block that follows.
pub open spec fn destination_view(destination: Option<(Place, u32)>) -> Option<PlaceView> {
    match destination {
        Some(d) => Some(d.0@),
        None => None,
    }
}

/// The place of the caller that a place of the callee stands for.
pub fn translate_child_to_parent(
    args: &Vec<Option<Place>>,
    destination: &Option<(Place, u32)>,
    child: &Place,
    mutated: bool,
    body: &MirBody,
) -> (r: Option<Place>)
    ensures
        r is Some == translated_place(
            argument_views(args@),
            destination_view(*destination),
            child@,
            mutated,
            body.arg_count,
            body.returns_unit,
        ) is Some,
        r matches Some(p) ==> translated_place(
            argument_views(args@),
            destination_view(*destination),
            child@,
            mutated,
            body.arg_count,
            body.returns_unit,
        ) == Some(p@),
{
    if child.local == RETURN_PLACE && child.projection.len() == 0 {
        if body.returns_unit {
            return None;
        }
        match destination {
            Some(d) => {
                return Some(d.0.duplicate());
            },
            None => {},
        }
    }
    if !child.is_arg(body.arg_count) || (mutated && !child.is_indirect()) {
        return None;
    }
    let position = (child.local - 1) as usize;
    if position >= args.len() {
        return None;
    }
    match &args[position] {
        Some(parent) => Some(parent.project_deeper(&child.projection)),
        None => None,
    }
}

/// What is known of the aliases of places.
pub type Aliases = Vec<(Place, Vec<Place>)>;

/// The places that may denote the same storage as `p`: those of the first
/// entry for `p`, or none if there is no entry.
pub open spec fn aliases_of(aliases: Seq<(Place, Vec<Place>)>, p: PlaceView) -> Seq<PlaceView> {
    if exists|i: int| 0 <= i < aliases.len() && (#[trigger] aliases[i]).0@ == p {
        place_views(aliases[first_alias_entry(aliases, p, aliases.len())].1@)
    } else {
        Seq::empty()
    }
}

/// Position of the first entry for `p` among the first `n`, or `n`.
pub open spec fn first_alias_entry(aliases: Seq<(Place, Vec<Place>)>, p: PlaceView, n: nat) -> int
    decreases n,
{
    if n == 0 {
        0
    } else if first_alias_entry(aliases, p, (n - 1) as nat) < n - 1 {
        first_alias_entry(aliases, p, (n - 1) as nat)
    } else if aliases[n - 1].0@ == p {
        n - 1
    } else {
        n as int
    }
}

/// What the position of the first entry tells.
pub proof fn lemma_first_alias_entry(aliases: Seq<(Place, Vec<Place>)>, p: PlaceView, n: nat)
    requires
        n <= aliases.len(),
    ensures
        0 <= first_alias_entry(aliases, p, n) <= n,
        first_alias_entry(aliases, p, n) < n ==> aliases[first_alias_entry(aliases, p, n)].0@ == p,
        forall|j: int| 0 <= j < first_alias_entry(aliases, p, n) ==> (#[trigger] aliases[j]).0@ != p,
    decreases n,
{
    if n > 0 {
        lemma_first_alias_entry(aliases, p, (n - 1) as nat);
    }
}

/// The places that may denote the same storage as `p`.
pub fn find_aliases<'a>(info: &'a Aliases, p: &Place) -> (r: Option<&'a Vec<Place>>)
    ensures
        match r {
            Some(v) => place_views(v@) == aliases_of(info@, p@),
            None => aliases_of(info@, p@) == Seq::<PlaceView>::empty(),
        },
{
    let mut i: usize = 0;
    while i < info.len()
        invariant
            i <= info.len(),
            first_alias_entry(info@, p@, i as nat) == i,
            forall|j: int| 0 <= j < i ==> (#[trigger] info[j]).0@ != p@,
        decreases info.len() - i,
    {
        if info[i].0.same(p) {
            proof {
                lemma_first_alias_stable(info@, p@, (i + 1) as nat, info.len() as nat);
            }
            return Some(&info[i].1);
        }
        i = i + 1;
    }
    None
}

/// An entry that is the first among some entries is the first among more.
pub proof fn lemma_first_alias_stable(
    aliases: Seq<(Place, Vec<Place>)>,
    p: PlaceView,
    k: nat,
    n: nat,
)
    requires
        k <= n <= aliases.len(),
        first_alias_entry(aliases, p, k) < k,
    ensures
        first_alias_entry(aliases, p, n) == first_alias_entry(aliases, p, k),
    decreases n - k,
{
    if k < n {
        lemma_first_alias_stable(aliases, p, k, (n - 1) as nat);
    }
}

/// The translation with each of the first `k` aliases translated to
/// `child`.
pub open spec fn with_aliases(
    t: TranslatorView,
    aliases: Seq<PlaceView>,
    child: PlaceView,
    k: nat,
) -> TranslatorView
    decreases k,
{
    if k == 0 {
        t
    } else {
        seq_set(with_aliases(t, aliases, child, (k - 1) as nat), aliases[k - 1], child)
    }
}

/// The translation that takes places of the caller to the first `n` of the given
/// places of the callee, which the callee may have changed: every alias of
/// the caller's place that such a place stands for is translated to it. Of
/// two places of the callee that claim the same place of the caller the later
/// one wins.
pub open spec fn translation_matrix(
    args: Seq<Option<PlaceView>>,
    destination: Option<PlaceView>,
    arg_count: usize,
    returns_unit: bool,
    children: Seq<PlaceView>,
    aliases: Seq<(Place, Vec<Place>)>,
    n: nat,
) -> TranslatorView
    decreases n,
{
    if n == 0 {
        Seq::empty()
    } else {
        let before = translation_matrix(
            args,
            destination,
            arg_count,
            returns_unit,
            children,
            aliases,
            (n - 1) as nat,
        );
        match translated_place(args, destination, children[n - 1], true, arg_count, returns_unit) {
            Some(parent) => with_aliases(
                before,
                aliases_of(aliases, parent),
                children[n - 1],
                aliases_of(aliases, parent).len(),
            ),
            None => before,
        }
    }
}

/// Gives a place a translation.
pub fn set_translation(t: &mut Translator, from: Place, to: Place)
    requires
        old(t).wf(),
    ensures
        final(t).wf(),
        translator_view(final(t)) == seq_set(translator_view(old(t)), from@, to@),
{
    let ghost before = t.entries();
    let ghost k = from;
    let ghost v = to;
    t.set(from, to);
    proof {
        let kf = |p: Place| p@;
        let vf = |p: Place| p@;
        assert(mapped(before, kf, vf) =~= translator_view(old(t)));
        assert(mapped(t.entries(), kf, vf) =~= translator_view(t));
        assert(distinct_keys(mapped(before, kf, vf))) by {
            assert forall|i: int, j: int| 0 <= i < j < before.len() implies (#[trigger] mapped(
                before,
                kf,
                vf,
            )[i]).0 != (#[trigger] mapped(before, kf, vf)[j]).0 by {
                assert(before[i].0@ != before[j].0@);
            }
        }
        if exists|i: int| 0 <= i < before.len() && (#[trigger] before[i]).0@ == k@ {
            let i = choose|i: int| 0 <= i < before.len() && (#[trigger] before[i]).0@ == k@;
            assert(kf(before[i].0) == kf(k));
        }
        lemma_mapped_set(before, t.entries(), k, v, kf, vf);
    }
}

/// The translation that takes places of the caller to the given places of the
/// callee, which the callee may have changed.
pub fn create_translation_matrix(
    args: &Vec<Option<Place>>,
    destination: &Option<(Place, u32)>,
    inner_body: &MirBody,
    children: &Vec<Place>,
    alias_info: &Aliases,
) -> (t: Translator)
    ensures
        t.wf(),
        translator_view(&t) == translation_matrix(
            argument_views(args@),
            destination_view(*destination),
            inner_body.arg_count,
            inner_body.returns_unit,
            place_views(children@),
            alias_info@,
            children.len() as nat,
        ),
{
    let mut t: Translator = ListMap::new();
    let mut n: usize = 0;
    proof {
        assert(translator_view(&t) =~= Seq::<(PlaceView, PlaceView)>::empty());
    }
    while n < children.len()
        invariant
            n <= children.len(),
            t.wf(),
            translator_view(&t) == translation_matrix(
                argument_views(args@),
                destination_view(*destination),
                inner_body.arg_count,
                inner_body.returns_unit,
                place_views(children@),
                alias_info@,
                n as nat,
            ),
        decreases children.len() - n,
    {
        let child = &children[n];
        match translate_child_to_parent(args, destination, child, true, inner_body) {
            Some(parent) => {
                match find_aliases(alias_info, &parent) {
                    Some(list) => {
                        let ghost before = translator_view(&t);
                        let mut k: usize = 0;
                        while k < list.len()
                            invariant
                                k <= list.len(),
                                t.wf(),
                                n < children.len(),
                                child == &children[n as int],
                                translator_view(&t) == with_aliases(
                                    before,
                                    place_views(list@),
                                    child@,
                                    k as nat,
                                ),
                            decreases list.len() - k,
                        {
                            set_translation(&mut t, list[k].duplicate(), child.duplicate());
                            k = k + 1;
                        }
                    },
                    None => {},
                }
            },
            None => {},
        }
        n = n + 1;
    }
    t
}

/// The translation of the first `n` row places of a matrix of the callee
/// to the places of the caller that they stand for.
pub open spec fn parent_translation_rows(
    t: TranslatorView,
    args: Seq<Option<PlaceView>>,
    destination: Option<PlaceView>,
    arg_count: usize,
    returns_unit: bool,
    rows: Seq<PlaceView>,
    n: nat,
) -> TranslatorView
    decreases n,
{
    if n == 0 {
        t
    } else {
        let before = parent_translation_rows(
            t,
            args,
            destination,
            arg_count,
            returns_unit,
            rows,
            (n - 1) as nat,
        );
        match translated_place(args, destination, rows[n - 1], false, arg_count, returns_unit) {
            Some(parent) => seq_set(before, rows[n - 1], parent),
            None => before,
        }
    }
}

/// Adds to the translation the places of the callee among the given ones
/// that stand for a place of the caller.
pub fn add_parent_translations(
    t: &mut Translator,
    args: &Vec<Option<Place>>,
    destination: &Option<(Place, u32)>,
    inner_body: &MirBody,
    rows: &Vec<Place>,
)
    requires
        old(t).wf(),
    ensures
        final(t).wf(),
        translator_view(final(t)) == parent_translation_rows(
            translator_view(old(t)),
            argument_views(args@),
            destination_view(*destination),
            inner_body.arg_count,
            inner_body.returns_unit,
            place_views(rows@),
            rows.len() as nat,
        ),
{
    let mut n: usize = 0;
    while n < rows.len()
        invariant
            n <= rows.len(),
            t.wf(),
            translator_view(t) == parent_translation_rows(
                translator_view(old(t)),
                argument_views(args@),
                destination_view(*destination),
                inner_body.arg_count,
                inner_body.returns_unit,
                place_views(rows@),
                n as nat,
            ),
        decreases rows.len() - n,
    {
        match translate_child_to_parent(args, destination, &rows[n], false, inner_body) {
            Some(parent) => {
                set_translation(t, rows[n].duplicate(), parent);
            },
            None => {},
        }
        n = n + 1;
    }
}

} // verus!
