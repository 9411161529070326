//! Dependency matrices: for each place the locations that last wrote it.
//!
//! A matrix may come with a translation of places. Such a matrix stands at
//! the boundary of an inlined call: a place is first translated to the other
//! side of the boundary, and then looked up.

use crate::algebra::Base;
use crate::assoc::{distinct_keys, lemma_mapped_set, mapped, seq_set, ListMap};
use crate::flows::{all_valid, chains, lemma_chains_extends};
use crate::global_location::{GliAt, GlobalLocation, GlobalLocationInterner, Link};
use crate::mir::{Place, PlaceView};
use vstd::prelude::*;

verus! {

/// For each place the locations that last wrote it.
pub type GlobalDepMatrix = ListMap<Place, Vec<GlobalLocation>>;

/// A row of a matrix: a place and the chains of the locations that last
/// wrote it.
pub type Row = (PlaceView, Set<Seq<Link>>);

/// The value of a [`GlobalDepMatrix`]: its rows, in order. No two rows are
/// for the same place.
pub type MatrixView = Seq<Row>;

/// A translation of places.
pub type Translator = ListMap<Place, Place>;

/// The value of a [`Translator`]: pairs of a place and its translation, in
/// order. No two pairs translate the same place.
pub type TranslatorView = Seq<(PlaceView, PlaceView)>;

/// Whether the rows of the matrix are for distinct places and every
/// location is valid for the interner.
pub open spec fn matrix_wf(gli: &GlobalLocationInterner, m: &GlobalDepMatrix) -> bool {
    &&& m.wf()
    &&& forall|i: int| 0 <= i < m.entries().len() ==> all_valid(gli, (#[trigger] m.entries()[i]).1@)
}

/// The value of a matrix.
pub open spec fn matrix_view(gli: &GlobalLocationInterner, m: &GlobalDepMatrix) -> MatrixView {
    Seq::new(m.entries().len(), |i: int| (m.entries()[i].0@, chains(gli, m.entries()[i].1@)))
}

/// The value of a translation.
pub open spec fn translator_view(t: &Translator) -> TranslatorView {
    Seq::new(t.entries().len(), |i: int| (t.entries()[i].0@, t.entries()[i].1@))
}

/// The row for a place, if the matrix has one.
pub open spec fn row_of(m: MatrixView, p: PlaceView) -> Option<Set<Seq<Link>>> {
    if exists|i: int| 0 <= i < m.len() && (#[trigger] m[i]).0 == p {
        Some(m[choose|i: int| 0 <= i < m.len() && (#[trigger] m[i]).0 == p].1)
    } else {
        None
    }
}

/// The translation of a place, if there is one.
pub open spec fn translation_of(t: TranslatorView, p: PlaceView) -> Option<PlaceView> {
    if exists|i: int| 0 <= i < t.len() && (#[trigger] t[i]).0 == p {
        Some(t[choose|i: int| 0 <= i < t.len() && (#[trigger] t[i]).0 == p].1)
    } else {
        None
    }
}

/// A matrix keeps its value when the interner grows.
pub proof fn lemma_matrix_extends(
    gli: &GlobalLocationInterner,
    before: &GlobalLocationInterner,
    m: &GlobalDepMatrix,
)
    requires
        gli.extends(before),
        matrix_wf(before, m),
    ensures
        matrix_wf(gli, m),
        matrix_view(gli, m) == matrix_view(before, m),
{
    assert forall|i: int| 0 <= i < m.entries().len() implies all_valid(
        gli,
        (#[trigger] m.entries()[i]).1@,
    ) && chains(gli, m.entries()[i].1@) == chains(before, m.entries()[i].1@) by {
        lemma_chains_extends(gli, before, m.entries()[i].1@);
    }
    assert(matrix_view(gli, m) =~= matrix_view(before, m));
}

/// What a matrix has for a place is the row for the place.
pub proof fn lemma_row_of(gli: &GlobalLocationInterner, m: &GlobalDepMatrix, p: PlaceView)
    requires
        m.wf(),
    ensures
        row_of(matrix_view(gli, m), p) == if m@.dom().contains(p) {
            Some(chains(gli, m@[p]@))
        } else {
            None
        },
{
    let rows = matrix_view(gli, m);
    if m.has(p) {
        let i = m.index(p);
        assert(rows[i].0 == p);
        let j = choose|j: int| 0 <= j < rows.len() && (#[trigger] rows[j]).0 == p;
        assert(m.entries()[j].0@ == p);
        m.lemma_entry(j);
    } else {
        if exists|i: int| 0 <= i < rows.len() && (#[trigger] rows[i]).0 == p {
            let j = choose|j: int| 0 <= j < rows.len() && (#[trigger] rows[j]).0 == p;
            assert(m.entries()[j].0@ == p);
        }
    }
}

/// What a translation has for a place is the translation of the place.
pub proof fn lemma_translation_of(t: &Translator, p: PlaceView)
    requires
        t.wf(),
    ensures
        translation_of(translator_view(t), p) == if t@.dom().contains(p) {
            Some(t@[p]@)
        } else {
            None
        },
{
    let rows = translator_view(t);
    if t.has(p) {
        let i = t.index(p);
        assert(rows[i].0 == p);
        let j = choose|j: int| 0 <= j < rows.len() && (#[trigger] rows[j]).0 == p;
        assert(t.entries()[j].0@ == p);
        t.lemma_entry(j);
    } else {
        if exists|i: int| 0 <= i < rows.len() && (#[trigger] rows[i]).0 == p {
            let j = choose|j: int| 0 <= j < rows.len() && (#[trigger] rows[j]).0 == p;
            assert(t.entries()[j].0@ == p);
        }
    }
}

/// The rows of a matrix are for distinct places.
pub proof fn lemma_matrix_distinct(gli: &GlobalLocationInterner, m: &GlobalDepMatrix)
    requires
        m.wf(),
    ensures
        distinct_keys(matrix_view(gli, m)),
{
    let rows = matrix_view(gli, m);
    assert forall|i: int, j: int| 0 <= i < j < rows.len() implies (#[trigger] rows[i]).0 != (
    #[trigger] rows[j]).0 by {
        assert(m.entries()[i].0@ != m.entries()[j].0@);
    }
}

/// Gives the place the locations as its row.
pub fn set_row(
    m: &mut GlobalDepMatrix,
    gli: &GlobalLocationInterner,
    place: Place,
    row: Vec<GlobalLocation>,
)
    requires
        matrix_wf(gli, old(m)),
        all_valid(gli, row@),
    ensures
        matrix_wf(gli, final(m)),
        matrix_view(gli, final(m)) == seq_set(matrix_view(gli, old(m)), place@, chains(gli, row@)),
{
    let ghost before = m.entries();
    let ghost k = place;
    let ghost v = row;
    m.set(place, row);
    proof {
        let kf = |p: Place| p@;
        let vf = |r: Vec<GlobalLocation>| chains(gli, r@);
        assert(mapped(before, kf, vf) =~= matrix_view(gli, old(m)));
        assert(mapped(m.entries(), kf, vf) =~= matrix_view(gli, m));
        lemma_matrix_distinct(gli, old(m));
        if exists|i: int| 0 <= i < before.len() && (#[trigger] before[i]).0@ == k@ {
            let i = choose|i: int| 0 <= i < before.len() && (#[trigger] before[i]).0@ == k@;
            assert(kf(before[i].0) == kf(k));
        }
        lemma_mapped_set(before, m.entries(), k, v, kf, vf);
        assert forall|i: int| 0 <= i < m.entries().len() implies all_valid(
            gli,
            (#[trigger] m.entries()[i]).1@,
        ) by {
            if i < before.len() && m.entries()[i] == before[i] {
            }
        }
    }
}

/// The chains nested under a call site.
pub open spec fn nested(site: Link, set: Set<Seq<Link>>) -> Set<Seq<Link>> {
    Set::new(|c: Seq<Link>| c.len() > 0 && c[0] == site && set.contains(c.drop_first()))
}

/// The matrix with every location nested under a call site.
pub open spec fn relativized_matrix(site: Link, m: MatrixView) -> MatrixView {
    Seq::new(m.len(), |i: int| (m[i].0, nested(site, m[i].1)))
}

/// The locations nested under the call site.
pub fn relativize_locations(
    gli: &mut GlobalLocationInterner,
    site: GliAt,
    locations: &Vec<GlobalLocation>,
) -> (r: Vec<GlobalLocation>)
    requires
        old(gli).wf(),
        all_valid(old(gli), locations@),
    ensures
        final(gli).wf(),
        final(gli).extends(old(gli)),
        all_valid(final(gli), r@),
        chains(final(gli), r@) == nested(site.link(), chains(old(gli), locations@)),
{
    let mut r: Vec<GlobalLocation> = Vec::new();
    let mut k: usize = 0;
    while k < locations.len()
        invariant
            k <= locations.len(),
            r.len() == k,
            gli.wf(),
            gli.extends(old(gli)),
            all_valid(old(gli), locations@),
            forall|j: int|
                0 <= j < k ==> gli.valid(#[trigger] r[j]) && gli.chain(r[j]) == seq![site.link()]
                    + old(gli).chain(locations[j]),
        decreases locations.len() - k,
    {
        let ghost gli_before = *gli;
        let ghost before = r@;
        proof {
            gli.lemma_extends_chain(old(gli), locations[k as int]);
        }
        let l = site.relativize(gli, locations[k]);
        r.push(l);
        proof {
            assert forall|j: int| 0 <= j < k + 1 implies gli.valid(#[trigger] r[j]) && gli.chain(
                r[j],
            ) == seq![site.link()] + old(gli).chain(locations[j]) by {
                if j < k {
                    assert(r[j] == before[j]);
                    gli.lemma_extends_chain(&gli_before, before[j]);
                }
            }
        }
        k = k + 1;
    }
    proof {
        let want = nested(site.link(), chains(old(gli), locations@));
        assert forall|c: Seq<Link>| chains(gli, r@).contains(c) == want.contains(c) by {
            if chains(gli, r@).contains(c) {
                let j = choose|j: int| 0 <= j < r.len() && gli.chain(#[trigger] r@[j]) == c;
                assert(c.drop_first() =~= old(gli).chain(locations@[j]));
            }
            if want.contains(c) {
                let j = choose|j: int|
                    0 <= j < locations.len() && old(gli).chain(#[trigger] locations@[j])
                        == c.drop_first();
                assert(gli.chain(r@[j]) =~= c);
            }
        }
        assert(chains(gli, r@) =~= want);
    }
    r
}

/// The matrix with every location nested under the call site.
pub fn relativize_global_dep_matrix(
    gli: &mut GlobalLocationInterner,
    site: GliAt,
    matrix: &GlobalDepMatrix,
) -> (r: GlobalDepMatrix)
    requires
        old(gli).wf(),
        matrix_wf(old(gli), matrix),
    ensures
        final(gli).wf(),
        final(gli).extends(old(gli)),
        matrix_wf(final(gli), &r),
        matrix_view(final(gli), &r) == relativized_matrix(
            site.link(),
            matrix_view(old(gli), matrix),
        ),
{
    let rows = matrix.as_vec();
    let mut r: GlobalDepMatrix = ListMap::new();
    let mut k: usize = 0;
    while k < rows.len()
        invariant
            k <= rows.len(),
            rows@ == matrix.entries(),
            gli.wf(),
            gli.extends(old(gli)),
            matrix_wf(old(gli), matrix),
            matrix_wf(gli, &r),
            r.entries().len() == k,
            forall|j: int|
                0 <= j < k ==> (#[trigger] r.entries()[j]).0@ == rows[j].0@ && chains(
                    gli,
                    r.entries()[j].1@,
                ) == nested(site.link(), chains(old(gli), rows[j].1@)),
        decreases rows.len() - k,
    {
        let ghost gli_before = *gli;
        let ghost r_before = r;
        proof {
            lemma_chains_extends(gli, old(gli), rows[k as int].1@);
        }
        let row = relativize_locations(gli, site, &rows[k].1);
        let place = rows[k].0.duplicate();
        proof {
            lemma_matrix_extends(gli, &gli_before, &r);
            if r.has(place@) {
                let j = r.index(place@);
                assert(rows[j].0@ != rows[k as int].0@);
            }
        }
        r.push_new(place, row);
        proof {
            assert forall|j: int| 0 <= j < k + 1 implies (#[trigger] r.entries()[j]).0@
                == rows[j].0@ && chains(gli, r.entries()[j].1@) == nested(
                site.link(),
                chains(old(gli), rows[j].1@),
            ) by {
                if j < k {
                    assert(r.entries()[j] == r_before.entries()[j]);
                    lemma_chains_extends(gli, &gli_before, r_before.entries()[j].1@);
                }
            }
            assert forall|i: int| 0 <= i < r.entries().len() implies all_valid(
                gli,
                (#[trigger] r.entries()[i]).1@,
            ) by {
                if i < k {
                    assert(r.entries()[i] == r_before.entries()[i]);
                }
            }
        }
        k = k + 1;
    }
    proof {
        assert(matrix_view(gli, &r) =~= relativized_matrix(
            site.link(),
            matrix_view(old(gli), matrix),
        ));
    }
    r
}

/// A copy of the translation.
pub fn copy_translator(t: &Translator) -> (r: Translator)
    requires
        t.wf(),
    ensures
        r.wf(),
        translator_view(&r) == translator_view(t),
{
    let rows = t.as_vec();
    let mut r: Translator = ListMap::new();
    let mut k: usize = 0;
    while k < rows.len()
        invariant
            k <= rows.len(),
            rows@ == t.entries(),
            t.wf(),
            r.wf(),
            r.entries().len() == k,
            forall|j: int|
                0 <= j < k ==> (#[trigger] r.entries()[j]).0@ == rows[j].0@ && r.entries()[j].1@
                    == rows[j].1@,
        decreases rows.len() - k,
    {
        let ghost r_before = r;
        let from = rows[k].0.duplicate();
        let to = rows[k].1.duplicate();
        proof {
            if r.has(from@) {
                let j = r.index(from@);
                assert(rows[j].0@ != rows[k as int].0@);
            }
        }
        r.push_new(from, to);
        proof {
            assert forall|j: int| 0 <= j < k + 1 implies (#[trigger] r.entries()[j]).0@
                == rows[j].0@ && r.entries()[j].1@ == rows[j].1@ by {
                if j < k {
                    assert(r.entries()[j] == r_before.entries()[j]);
                }
            }
        }
        k = k + 1;
    }
    proof {
        assert(translator_view(&r) =~= translator_view(t));
    }
    r
}

/// A copy of the locations.
pub fn copy_locations(v: &Vec<GlobalLocation>) -> (r: Vec<GlobalLocation>)
    ensures
        r@ == v@,
{
    let mut r: Vec<GlobalLocation> = Vec::new();
    let mut i: usize = 0;
    while i < v.len()
        invariant
            i <= v.len(),
            r@ == v@.take(i as int),
        decreases v.len() - i,
    {
        r.push(v[i]);
        proof {
            assert(v@.take(i as int + 1) =~= v@.take(i as int).push(v@[i as int]));
        }
        i = i + 1;
    }
    proof {
        assert(v@.take(v.len() as int) =~= v@);
    }
    r
}

/// A copy of the matrix.
pub fn copy_matrix(gli: &GlobalLocationInterner, m: &GlobalDepMatrix) -> (r: GlobalDepMatrix)
    requires
        matrix_wf(gli, m),
    ensures
        matrix_wf(gli, &r),
        matrix_view(gli, &r) == matrix_view(gli, m),
{
    let rows = m.as_vec();
    let mut r: GlobalDepMatrix = ListMap::new();
    let mut k: usize = 0;
    while k < rows.len()
        invariant
            k <= rows.len(),
            rows@ == m.entries(),
            matrix_wf(gli, m),
            matrix_wf(gli, &r),
            r.entries().len() == k,
            forall|j: int|
                0 <= j < k ==> (#[trigger] r.entries()[j]).0@ == rows[j].0@ && r.entries()[j].1@
                    == rows[j].1@,
        decreases rows.len() - k,
    {
        let ghost r_before = r;
        let place = rows[k].0.duplicate();
        let row = copy_locations(&rows[k].1);
        proof {
            if r.has(place@) {
                let j = r.index(place@);
                assert(rows[j].0@ != rows[k as int].0@);
            }
        }
        r.push_new(place, row);
        proof {
            assert forall|j: int| 0 <= j < k + 1 implies (#[trigger] r.entries()[j]).0@
                == rows[j].0@ && r.entries()[j].1@ == rows[j].1@ by {
                if j < k {
                    assert(r.entries()[j] == r_before.entries()[j]);
                }
            }
            assert forall|i: int| 0 <= i < r.entries().len() implies all_valid(
                gli,
                (#[trigger] r.entries()[i]).1@,
            ) by {
                assert(r.entries()[i].1@ == rows[i].1@);
            }
        }
        k = k + 1;
    }
    proof {
        assert(matrix_view(gli, &r) =~= matrix_view(gli, m));
    }
    r
}

/// The value of a [`TranslatedDepMatrix`].
pub struct TranslatedView {
    pub matrix: MatrixView,
    pub translator: Option<TranslatorView>,
}

/// A dependency matrix, with or without a translation of places.
pub struct TranslatedDepMatrix {
    matrix: GlobalDepMatrix,
    translator: Option<Translator>,
}

impl TranslatedView {
    /// The translation of the place, if the matrix comes with a translation
    /// that knows the place.
    pub open spec fn translation(self, place: PlaceView) -> Option<PlaceView> {
        match self.translator {
            Some(t) => translation_of(t, place),
            None => None,
        }
    }

    /// The place that is looked up for `place`: its translation if there is
    /// one, and else the place itself.
    pub open spec fn resolved(self, place: PlaceView) -> PlaceView {
        match self.translation(place) {
            Some(p) => p,
            None => place,
        }
    }

    /// The locations that last wrote the place, after translation; none if
    /// the matrix has no row for it.
    pub open spec fn deps(self, place: PlaceView) -> Set<Seq<Link>> {
        match row_of(self.matrix, self.resolved(place)) {
            Some(s) => s,
            None => Set::empty(),
        }
    }
}

impl TranslatedDepMatrix {
    /// The invariant of the matrix with respect to the interner.
    pub closed spec fn wf(&self, gli: &GlobalLocationInterner) -> bool {
        &&& matrix_wf(gli, &self.matrix)
        &&& self.translator matches Some(t) ==> t.wf()
    }

    /// The value of the matrix.
    pub closed spec fn view(&self, gli: &GlobalLocationInterner) -> TranslatedView {
        TranslatedView {
            matrix: matrix_view(gli, &self.matrix),
            translator: match self.translator {
                Some(t) => Some(translator_view(&t)),
                None => None,
            },
        }
    }

    /// A matrix keeps its invariant and its value when the interner grows.
    pub proof fn lemma_extends(
        &self,
        gli: &GlobalLocationInterner,
        before: &GlobalLocationInterner,
    )
        requires
            gli.extends(before),
            self.wf(before),
        ensures
            self.wf(gli),
            self.view(gli) == self.view(before),
    {
        lemma_matrix_extends(gli, before, &self.matrix);
    }

    /// A matrix without translation.
    pub fn untranslated(matrix: GlobalDepMatrix) -> (r: Self)
        ensures
            forall|gli: &GlobalLocationInterner|
                matrix_wf(gli, &matrix) ==> #[trigger] r.wf(gli) && r.view(gli) == (TranslatedView {
                    matrix: matrix_view(gli, &matrix),
                    translator: None,
                }),
    {
        TranslatedDepMatrix { matrix, translator: None }
    }

    /// A matrix with a translation.
    pub fn translated(matrix: GlobalDepMatrix, translator: Translator) -> (r: Self)
        requires
            translator.wf(),
        ensures
            forall|gli: &GlobalLocationInterner|
                matrix_wf(gli, &matrix) ==> #[trigger] r.wf(gli) && r.view(gli) == (TranslatedView {
                    matrix: matrix_view(gli, &matrix),
                    translator: Some(translator_view(&translator)),
                }),
    {
        TranslatedDepMatrix { matrix, translator: Some(translator) }
    }

    /// Whether the matrix comes with a translation.
    pub fn is_translated(&self) -> (r: bool)
        ensures
            forall|gli: &GlobalLocationInterner| r == #[trigger] self.view(gli).translator is Some,
    {
        self.translator.is_some()
    }

    /// The matrix itself.
    pub fn matrix_raw(&self) -> (r: &GlobalDepMatrix)
        ensures
            forall|gli: &GlobalLocationInterner|
                self.wf(gli) ==> matrix_wf(gli, r) && matrix_view(gli, r) == #[trigger] self.view(
                    gli,
                ).matrix,
    {
        &self.matrix
    }

    /// The translation, if the matrix comes with one.
    pub fn translator(&self) -> (r: Option<&Translator>)
        ensures
            forall|gli: &GlobalLocationInterner|
                self.wf(gli) ==> match r {
                    Some(t) => t.wf() && #[trigger] self.view(gli).translator == Some(
                        translator_view(t),
                    ),
                    None => self.view(gli).translator is None,
                },
    {
        match &self.translator {
            Some(t) => Some(t),
            None => None,
        }
    }

    /// The translation of the place, if there is one.
    pub fn resolve_place(&self, gli: &GlobalLocationInterner, place: &Place) -> (r: Option<Place>)
        requires
            self.wf(gli),
        ensures
            r is Some == self.view(gli).translation(place@) is Some,
            r matches Some(p) ==> self.view(gli).translation(place@) == Some(p@),
    {
        match &self.translator {
            Some(t) => {
                proof {
                    lemma_translation_of(t, place@);
                }
                match t.get(place) {
                    Some(p) => Some(p.duplicate()),
                    None => None,
                }
            },
            None => None,
        }
    }

    /// The locations that last wrote the place, after translation; None if
    /// the matrix has no row for it.
    pub fn resolve_set(&self, gli: &GlobalLocationInterner, place: &Place) -> (r: Option<
        &Vec<GlobalLocation>,
    >)
        requires
            self.wf(gli),
        ensures
            r is Some == row_of(self.view(gli).matrix, self.view(gli).resolved(place@)) is Some,
            r matches Some(v) ==> all_valid(gli, v@) && chains(gli, v@) == self.view(gli).deps(
                place@,
            ),
    {
        proof {
            lemma_row_of(gli, &self.matrix, self.view(gli).resolved(place@));
        }
        let r = match self.resolve_place(gli, place) {
            Some(p) => self.matrix.get(&p),
            None => self.matrix.get(place),
        };
        proof {
            match r {
                Some(v) => {
                    let p = self.view(gli).resolved(place@);
                    self.matrix.lemma_entry(self.matrix.index(p));
                },
                None => {},
            }
        }
        r
    }

    /// The translation of the place, if there is one, and the locations
    /// that last wrote the place, after translation.
    pub fn resolve(&self, gli: &GlobalLocationInterner, place: &Place) -> (r: (
        Option<Place>,
        Vec<GlobalLocation>,
    ))
        requires
            self.wf(gli),
        ensures
            r.0 is Some == self.view(gli).translation(place@) is Some,
            r.0 matches Some(p) ==> self.view(gli).translation(place@) == Some(p@),
            all_valid(gli, r.1@),
            chains(gli, r.1@) == self.view(gli).deps(place@),
    {
        let resolved = self.resolve_place(gli, place);
        let deps = match self.resolve_set(gli, place) {
            Some(v) => copy_locations(v),
            None => {
                let d: Vec<GlobalLocation> = Vec::new();
                proof {
                    assert(chains(gli, d@) =~= Set::<Seq<Link>>::empty());
                }
                d
            },
        };
        (resolved, deps)
    }

    /// The places that the matrix has a row for, in the order of the rows.
    pub fn keys(&self, gli: &GlobalLocationInterner) -> (r: Vec<Place>)
        requires
            self.wf(gli),
        ensures
            r.len() == self.view(gli).matrix.len(),
            forall|i: int| 0 <= i < r.len() ==> (#[trigger] r[i])@ == self.view(gli).matrix[i].0,
    {
        let rows = self.matrix.as_vec();
        let mut r: Vec<Place> = Vec::new();
        let mut i: usize = 0;
        while i < rows.len()
            invariant
                i <= rows.len(),
                r.len() == i,
                forall|j: int| 0 <= j < i ==> (#[trigger] r[j])@ == rows[j].0@,
            decreases rows.len() - i,
        {
            r.push(rows[i].0.duplicate());
            i = i + 1;
        }
        r
    }

    /// Every location that the matrix names as one that last wrote a place is
    /// a location of the interner.
    pub proof fn lemma_deps_known(&self, gli: &GlobalLocationInterner, q: PlaceView, c: Seq<Link>)
        requires
            gli.wf(),
            self.wf(gli),
            self.view(gli).deps(q).contains(c),
        ensures
            gli.find(c) is Some,
    {
        let m = matrix_view(gli, &self.matrix);
        let p = self.view(gli).resolved(q);
        let i = choose|i: int| 0 <= i < m.len() && (#[trigger] m[i]).0 == p;
        let row = self.matrix.entries()[i].1@;
        assert(all_valid(gli, row));
        let k = choose|k: int| 0 <= k < row.len() && gli.chain(#[trigger] row[k]) == c;
        gli.lemma_find_chain(row[k]);
    }

    /// The rows of the matrix without their places, in the order of the rows.
    pub fn values(&self, gli: &GlobalLocationInterner) -> (r: Vec<&Vec<GlobalLocation>>)
        requires
            self.wf(gli),
        ensures
            r.len() == self.view(gli).matrix.len(),
            forall|i: int|
                0 <= i < r.len() ==> chains(gli, (#[trigger] r[i])@) == self.view(gli).matrix[i].1,
    {
        let rows = self.matrix.as_vec();
        let mut r: Vec<&Vec<GlobalLocation>> = Vec::new();
        let mut i: usize = 0;
        while i < rows.len()
            invariant
                i <= rows.len(),
                r.len() == i,
                forall|j: int| 0 <= j < i ==> (#[trigger] r[j])@ == rows[j].1@,
            decreases rows.len() - i,
        {
            r.push(&rows[i].1);
            i = i + 1;
        }
        r
    }

    /// The same matrix with every location nested under the call site.
    pub fn relativize(&self, gli: &mut GlobalLocationInterner, site: GliAt) -> (r: Self)
        requires
            old(gli).wf(),
            self.wf(old(gli)),
        ensures
            final(gli).wf(),
            final(gli).extends(old(gli)),
            r.wf(final(gli)),
            r.view(final(gli)) == (TranslatedView {
                matrix: relativized_matrix(site.link(), self.view(old(gli)).matrix),
                translator: self.view(old(gli)).translator,
            }),
    {
        let matrix = relativize_global_dep_matrix(gli, site, &self.matrix);
        let translator = match &self.translator {
            Some(t) => Some(copy_translator(t)),
            None => None,
        };
        TranslatedDepMatrix { matrix, translator }
    }

    /// A copy of the matrix.
    pub fn duplicate(&self, gli: &GlobalLocationInterner) -> (r: Self)
        requires
            self.wf(gli),
        ensures
            r.wf(gli),
            r.view(gli) == self.view(gli),
    {
        let matrix = copy_matrix(gli, &self.matrix);
        let translator = match &self.translator {
            Some(t) => Some(copy_translator(t)),
            None => None,
        };
        TranslatedDepMatrix { matrix, translator }
    }
}

} // verus!
