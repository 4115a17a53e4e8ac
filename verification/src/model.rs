//! Data model: coordinates, place categories and their localized labels.

use vstd::prelude::*;

verus! {

/// A geographic point, stored as fixed-point microdegrees
/// (degrees multiplied by 1_000_000): `x` is the longitude,
/// `y` the latitude.
#[derive(Clone, Copy, PartialEq, Eq, Structural, Debug)]
pub struct Location {
    pub x: i64,
    pub y: i64,
}

impl Location {
    /// A coordinate that actually lies on the globe:
    /// longitude within +/-180 degrees, latitude within +/-90 degrees.
    pub open spec fn wf(self) -> bool {
        &&& -180_000_000 <= self.x <= 180_000_000
        &&& -90_000_000 <= self.y <= 90_000_000
    }
}

/// The closed set of place categories the assistant knows about.
/// Each variant has a fixed localized label used by the external
/// data sets and by the query interpretation.
#[derive(Clone, Copy, PartialEq, Eq, Structural, Debug, Hash)]
pub enum PlaceType {
    Museum,
    Historical,
    Restaurant,
}

impl PlaceType {
    /// The localized label of this category.
    pub open spec fn spec_label(self) -> Seq<char> {
        match self {
            PlaceType::Museum => "موزه"@,
            PlaceType::Historical => "مکان تاریخی"@,
            PlaceType::Restaurant => "رستوران"@,
        }
    }

    /// Which category, if any, a label denotes.
    pub open spec fn spec_from_label(s: Seq<char>) -> Option<PlaceType> {
        if s == PlaceType::Museum.spec_label() {
            Some(PlaceType::Museum)
        } else if s == PlaceType::Historical.spec_label() {
            Some(PlaceType::Historical)
        } else if s == PlaceType::Restaurant.spec_label() {
            Some(PlaceType::Restaurant)
        } else {
            None
        }
    }

    /// Render this category as its localized label.
    pub fn label(&self) -> (r: String)
        ensures
            r@ == self.spec_label(),
    {
        match self {
            PlaceType::Museum => "موزه".to_owned(),
            PlaceType::Historical => "مکان تاریخی".to_owned(),
            PlaceType::Restaurant => "رستوران".to_owned(),
        }
    }

    /// Parse a localized label back into a category; labels outside the
    /// closed set are rejected with `None` rather than coerced.
    pub fn from_label(s: &String) -> (r: Option<PlaceType>)
        ensures
            r == PlaceType::spec_from_label(s@),
    {
        if *s == PlaceType::Museum.label() {
            Some(PlaceType::Museum)
        } else if *s == PlaceType::Historical.label() {
            Some(PlaceType::Historical)
        } else if *s == PlaceType::Restaurant.label() {
            Some(PlaceType::Restaurant)
        } else {
            None
        }
    }

    /// Parse a localized label, reporting a label outside the closed set
    /// as [`SuggestError::UnknownPlaceType`]: exactly the labels of the
    /// three categories succeed.
    pub fn parse_label(s: &String) -> (r: Result<PlaceType, SuggestError>)
        ensures
            match PlaceType::spec_from_label(s@) {
                Some(t) => r == Ok::<PlaceType, SuggestError>(t),
                None => r == Err::<PlaceType, SuggestError>(SuggestError::UnknownPlaceType),
            },
    {
        match PlaceType::from_label(s) {
            Some(t) => Ok(t),
            None => Err(SuggestError::UnknownPlaceType),
        }
    }
}

/// The failures the itinerary pipeline can report. Every failure is a
/// value returned to the caller; the pipeline never aborts.
///
/// A requested category that matches no place at all is not an error by
/// itself: the policy of this crate is partial coverage, such a category
/// is dropped from the itinerary. Only when nothing survives does the
/// pipeline report [`SuggestError::NoValidItinerary`].
#[derive(Clone, Copy, PartialEq, Eq, Structural, Debug)]
pub enum SuggestError {
    /// A query-interpretation entry names a category outside the closed set.
    UnknownPlaceType,
    /// No requested category has any matching place (or nothing was requested).
    NoValidItinerary,
    /// The combination space of the request exceeds the configured ceiling.
    CombinationSpaceTooLarge,
}

/// Label-to-category parsing inverts category-to-label rendering:
/// for every category `t`, parsing `t`'s label yields `t` back.
pub proof fn lemma_label_round_trip(t: PlaceType)
    ensures
        PlaceType::spec_from_label(t.spec_label()) == Some(t),
{
    reveal_strlit("موزه");
    reveal_strlit("مکان تاریخی");
    reveal_strlit("رستوران");
    assert(PlaceType::Museum.spec_label().len() == 4);
    assert(PlaceType::Historical.spec_label().len() == 11);
    assert(PlaceType::Restaurant.spec_label().len() == 7);
}

/// Mathematical value of a [`Place`]: every string is a character
/// sequence, the tag list a sequence of character sequences.
pub ghost struct PlaceView {
    pub title: Seq<char>,
    pub category: Seq<char>,
    pub place_type: PlaceType,
    pub region: Seq<char>,
    pub neighbourhood: Seq<char>,
    pub location: Location,
    pub tags: Seq<Seq<char>>,
}

impl PlaceView {
    /// A place whose coordinate lies on the globe.
    pub open spec fn wf(self) -> bool {
        self.location.wf()
    }
}

/// Two places are the same point of interest exactly when their titles
/// and categories agree; all other attributes are incidental. Itinerary
/// deduplication depends on this deliberately narrow notion of identity.
pub open spec fn place_identity_eq(a: PlaceView, b: PlaceView) -> bool {
    a.title == b.title && a.place_type == b.place_type
}

/// One point of interest from the catalog. Identity (equality) is defined
/// over `(title, place_type)` only — see [`place_identity_eq`].
#[derive(Debug)]
pub struct Place {
    pub title: String,
    pub category: String,
    pub place_type: PlaceType,
    pub region: String,
    pub neighbourhood: String,
    pub location: Location,
    pub tags: Vec<String>,
}

impl View for Place {
    type V = PlaceView;

    open spec fn view(&self) -> PlaceView {
        PlaceView {
            title: self.title@,
            category: self.category@,
            place_type: self.place_type,
            region: self.region@,
            neighbourhood: self.neighbourhood@,
            location: self.location,
            tags: self.tags.deep_view(),
        }
    }
}

impl Clone for Place {
    /// Cloning preserves the mathematical value of the place.
    fn clone(&self) -> (r: Self)
        ensures
            r@ == self@,
    {
        let tags = clone_strings(&self.tags);
        let r = Place {
            title: self.title.clone(),
            category: self.category.clone(),
            place_type: self.place_type,
            region: self.region.clone(),
            neighbourhood: self.neighbourhood.clone(),
            location: self.location,
            tags,
        };
        assert(r@.tags =~= self@.tags);
        r
    }
}

impl PartialEq for Place {
    /// Place equality is place identity: title and category type only.
    fn eq(&self, other: &Place) -> (r: bool) {
        self.title == other.title && self.place_type == other.place_type
    }
}

impl vstd::std_specs::cmp::PartialEqSpecImpl for Place {
    open spec fn obeys_eq_spec() -> bool {
        true
    }

    open spec fn eq_spec(&self, other: &Place) -> bool {
        place_identity_eq(self@, other@)
    }
}

/// Copy a list of strings, preserving its mathematical value.
pub fn clone_strings(v: &Vec<String>) -> (r: Vec<String>)
    ensures
        r.deep_view() == v.deep_view(),
{
    let mut r: Vec<String> = Vec::new();
    let mut i: usize = 0;
    while i < v.len()
        invariant
            i <= v.len(),
            r.deep_view() =~= v.deep_view().subrange(0, i as int),
        decreases v.len() - i,
    {
        let x = v[i].clone();
        let ghost old_r = r.deep_view();
        r.push(x);
        proof {
            assert(r.deep_view() =~= old_r.push(x.deep_view()));
            assert(v.deep_view().subrange(0, (i + 1) as int) =~= v.deep_view().subrange(
                0,
                i as int,
            ).push(v.deep_view()[i as int]));
        }
        i = i + 1;
    }
    assert(r.deep_view() =~= v.deep_view());
    r
}

/// One entry of a query interpretation: the user wants a place of
/// `place_type` that is relevant to `tags`.
#[derive(Debug)]
pub struct PlaceInfo {
    pub place_type: PlaceType,
    pub tags: Vec<String>,
}

/// Mathematical value of a [`PlaceInfo`].
pub ghost struct PlaceInfoView {
    pub place_type: PlaceType,
    pub tags: Seq<Seq<char>>,
}

impl View for PlaceInfo {
    type V = PlaceInfoView;

    open spec fn view(&self) -> PlaceInfoView {
        PlaceInfoView { place_type: self.place_type, tags: self.tags.deep_view() }
    }
}

impl Clone for PlaceInfo {
    /// Cloning preserves the mathematical value of the entry.
    fn clone(&self) -> (r: Self)
        ensures
            r@ == self@,
    {
        let r = PlaceInfo { place_type: self.place_type, tags: clone_strings(&self.tags) };
        assert(r@.tags =~= self@.tags);
        r
    }
}

/// A full query interpretation, as produced by the external language-model
/// collaborator: the requested categories with their relevant tags, plus an
/// optional hint of how many places the user asked for in total. The hint
/// is carried through for callers but does not influence ranking.
#[derive(Debug)]
pub struct PromptAnalyses {
    pub place_infos: Vec<PlaceInfo>,
    pub total_count: Option<u32>,
}

impl PromptAnalyses {
    /// The mathematical values of the requested entries.
    pub open spec fn infos(&self) -> Seq<PlaceInfoView> {
        self.place_infos.deep_view()
    }
}

/// A candidate place annotated with its relevance score: the number of its
/// tags that also occur in the requested tag set.
#[derive(Debug)]
pub struct PlaceScoring {
    pub place: Place,
    pub score: usize,
}

/// Mathematical value of a [`PlaceScoring`].
pub ghost struct PlaceScoringView {
    pub place: PlaceView,
    pub score: nat,
}

impl View for PlaceScoring {
    type V = PlaceScoringView;

    open spec fn view(&self) -> PlaceScoringView {
        PlaceScoringView { place: self.place@, score: self.score as nat }
    }
}

impl DeepView for PlaceScoring {
    type V = PlaceScoringView;

    open spec fn deep_view(&self) -> PlaceScoringView {
        self@
    }
}

impl PartialEq for PlaceScoring {
    /// Scored candidates are equal when the places are identical (by place
    /// identity) and the scores agree.
    fn eq(&self, other: &PlaceScoring) -> (r: bool) {
        self.place == other.place && self.score == other.score
    }
}

impl vstd::std_specs::cmp::PartialEqSpecImpl for PlaceScoring {
    open spec fn obeys_eq_spec() -> bool {
        true
    }

    open spec fn eq_spec(&self, other: &PlaceScoring) -> bool {
        place_identity_eq(self.place@, other.place@) && self.score == other.score
    }
}

/// One loaded data set: the full tag vocabulary of a category (exposed
/// upstream to the language-model prompt) plus its place records.
#[derive(Debug)]
pub struct NeshanDataModel {
    pub tag_pool: Vec<String>,
    pub items: Vec<Place>,
}

/// Concatenate the place records of several data sets into the single flat
/// catalog that candidate filtering runs over, in data-set order.
pub fn all_places(models: &Vec<NeshanDataModel>) -> (r: Vec<Place>)
    ensures
        r.deep_view() == flat_items(models.deep_view()),
{
    let mut r: Vec<Place> = Vec::new();
    let mut i: usize = 0;
    while i < models.len()
        invariant
            i <= models.len(),
            r.deep_view() =~= flat_items(models.deep_view().subrange(0, i as int)),
        decreases models.len() - i,
    {
        let ghost pre: Seq<NeshanDataModelView> = models.deep_view().subrange(0, i as int);
        let model = &models[i];
        let mut j: usize = 0;
        while j < model.items.len()
            invariant
                j <= model.items.len(),
                r.deep_view() =~= flat_items(pre) + model.items.deep_view().subrange(0, j as int),
            decreases model.items.len() - j,
        {
            let x = model.items[j].clone();
            let ghost old_r = r.deep_view();
            r.push(x);
            proof {
                assert(r.deep_view() =~= old_r.push(x.deep_view()));
                assert(model.items.deep_view().subrange(0, (j + 1) as int)
                    =~= model.items.deep_view().subrange(0, j as int).push(
                    model.items.deep_view()[j as int],
                ));
            }
            j = j + 1;
        }
        proof {
            let next: Seq<NeshanDataModelView> = models.deep_view().subrange(0, (i + 1) as int);
            assert(next.drop_last() =~= pre);
            assert(model.items.deep_view().subrange(0, model.items.len() as int) =~= next.last()
                .items);
            assert(r.deep_view() =~= flat_items(next));
        }
        i = i + 1;
    }
    assert(models.deep_view().subrange(0, models.len() as int) =~= models.deep_view());
    r
}

/// The concatenation of the `items` of a sequence of data sets.
pub open spec fn flat_items(models: Seq<NeshanDataModelView>) -> Seq<PlaceView>
    decreases models.len(),
{
    if models.len() == 0 {
        Seq::empty()
    } else {
        flat_items(models.drop_last()) + models.last().items
    }
}

/// Mathematical value of a [`NeshanDataModel`].
pub ghost struct NeshanDataModelView {
    pub tag_pool: Seq<Seq<char>>,
    pub items: Seq<PlaceView>,
}

impl DeepView for NeshanDataModel {
    type V = NeshanDataModelView;

    open spec fn deep_view(&self) -> NeshanDataModelView {
        NeshanDataModelView { tag_pool: self.tag_pool.deep_view(), items: self.items.deep_view() }
    }
}

impl DeepView for Place {
    type V = PlaceView;

    open spec fn deep_view(&self) -> PlaceView {
        self@
    }
}

impl DeepView for PlaceInfo {
    type V = PlaceInfoView;

    open spec fn deep_view(&self) -> PlaceInfoView {
        self@
    }
}

} // verus!
