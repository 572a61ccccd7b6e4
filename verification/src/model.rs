//! Model variants and the stems that they separate.

use vstd::prelude::*;

verus! {

/// One of the parts that a recording is separated into.
#[derive(Clone, Copy, Debug, PartialEq, Eq, Structural)]
pub enum StemId {
    Drums,
    Bass,
    Other,
    Vocals,
    Guitar,
    Piano,
}

/// What is fixed for a model variant.
#[derive(Debug)]
pub struct ModelInfo {
    /// The name that the variant is published under.
    pub id: &'static str,
    /// The stems in the order in which the network puts them out.
    pub stems: Vec<StemId>,
}

/// The model variant to run.
#[derive(Clone, Debug)]
pub enum ModelOptions {
    /// One network for four stems.
    FourStem,
    /// One network for six stems.
    SixStem,
    /// One network for each of four stems, of which the listed ones are run.
    FineTuned(Vec<StemId>),
}

/// A separated part of a recording.
#[derive(Debug)]
pub struct Stem<T> {
    pub id: StemId,
    pub left: Vec<T>,
    pub right: Vec<T>,
}

/// The contents of a [`Stem`].
pub struct StemView<T> {
    pub id: StemId,
    pub left: Seq<T>,
    pub right: Seq<T>,
}

/// A side of a stereo signal.
pub enum Side {
    Left,
    Right,
}

impl<T> StemView<T> {
    pub open spec fn channel(self, side: Side) -> Seq<T> {
        match side {
            Side::Left => self.left,
            Side::Right => self.right,
        }
    }
}

impl<T> View for Stem<T> {
    type V = StemView<T>;

    open spec fn view(&self) -> StemView<T> {
        StemView { id: self.id, left: self.left@, right: self.right@ }
    }
}

/// The contents of a list of stems.
pub open spec fn stem_views<T>(stems: Seq<Stem<T>>) -> Seq<StemView<T>> {
    Seq::new(stems.len(), |i: int| stems[i]@)
}

/// The stems of the four-stem networks, in order.
pub open spec fn four_stems() -> Seq<StemId> {
    seq![StemId::Drums, StemId::Bass, StemId::Other, StemId::Vocals]
}

/// The stems of the six-stem network, in order.
pub open spec fn six_stems() -> Seq<StemId> {
    seq![
        StemId::Drums,
        StemId::Bass,
        StemId::Other,
        StemId::Vocals,
        StemId::Guitar,
        StemId::Piano,
    ]
}

/// Row `row` is where stem `id` first stands in the order `ids`.
pub open spec fn is_row(ids: Seq<StemId>, id: StemId, row: int) -> bool {
    &&& 0 <= row < ids.len()
    &&& ids[row] == id
    &&& forall|earlier: int| 0 <= earlier < row ==> ids[earlier] != id
}

/// Where stem `id` first stands in the order `ids`.
pub fn stem_row(ids: &Vec<StemId>, id: StemId) -> (found: Option<usize>)
    ensures
        match found {
            Some(row) => is_row(ids@, id, row as int),
            None => !ids@.contains(id),
        },
{
    let mut row: usize = 0;
    while row < ids.len()
        invariant
            row <= ids@.len(),
            forall|earlier: int| 0 <= earlier < row ==> ids@[earlier] != id,
        decreases ids@.len() - row,
    {
        if ids[row] == id {
            return Some(row);
        }
        row += 1;
    }
    None
}

/// The rows among the first `n` of `ids` whose stem is selected, in order.
pub open spec fn picked(ids: Seq<StemId>, selected: Seq<StemId>, n: int) -> Seq<usize>
    decreases n,
{
    if n <= 0 {
        Seq::empty()
    } else if selected.contains(ids[n - 1]) {
        picked(ids, selected, n - 1).push((n - 1) as usize)
    } else {
        picked(ids, selected, n - 1)
    }
}

/// The rows of `ids` whose stem is selected, in order.
pub fn picked_rows(ids: &Vec<StemId>, selected: &Vec<StemId>) -> (rows: Vec<usize>)
    ensures
        rows@ == picked(ids@, selected@, ids@.len() as int),
{
    let mut rows: Vec<usize> = Vec::new();
    let mut row: usize = 0;
    while row < ids.len()
        invariant
            row <= ids@.len(),
            rows@ == picked(ids@, selected@, row as int),
        decreases ids@.len() - row,
    {
        let chosen: Option<usize> = stem_row(selected, ids[row]);
        if chosen.is_some() {
            rows.push(row);
        }
        row += 1;
    }
    rows
}

/// The picked rows are, in ascending order, exactly those of selected stems.
pub proof fn law_picked(ids: Seq<StemId>, selected: Seq<StemId>, n: int)
    requires
        0 <= n <= ids.len(),
        n <= usize::MAX,
    ensures
        picked(ids, selected, n).len() <= n,
        forall|j: int| 0 <= j < picked(ids, selected, n).len() ==>
            #[trigger] picked(ids, selected, n)[j] < n
            && selected.contains(ids[picked(ids, selected, n)[j] as int]),
        forall|j: int, k: int| 0 <= j < k < picked(ids, selected, n).len() ==>
            picked(ids, selected, n)[j] < picked(ids, selected, n)[k],
        forall|row: int| 0 <= row < n && selected.contains(#[trigger] ids[row]) ==>
            picked(ids, selected, n).contains(row as usize),
    decreases n,
{
    if n > 0 {
        law_picked(ids, selected, n - 1);
        let before = picked(ids, selected, n - 1);
        let after = picked(ids, selected, n);
        assert forall|row: int| 0 <= row < n && selected.contains(#[trigger] ids[row]) implies
            after.contains(row as usize) by {
            if row == n - 1 {
                assert(after[before.len() as int] == row as usize);
            } else {
                let j = choose|j: int| 0 <= j < before.len() && before[j] == row as usize;
                assert(after[j] == row as usize);
            }
        }
    }
}

/// No variant names a stem twice.
pub proof fn law_stems_are_distinct(options: ModelOptions)
    ensures
        options.stem_order().no_duplicates(),
{
}

impl ModelOptions {
    /// The stems of this variant, in order.
    pub open spec fn stem_order(&self) -> Seq<StemId> {
        match self {
            ModelOptions::FourStem => four_stems(),
            ModelOptions::SixStem => six_stems(),
            ModelOptions::FineTuned(_) => four_stems(),
        }
    }

    /// The name of this variant.
    pub open spec fn name(&self) -> Seq<char> {
        match self {
            ModelOptions::FourStem => "htdemucs"@,
            ModelOptions::SixStem => "htdemucs_6s"@,
            ModelOptions::FineTuned(_) => "htdemucs_ft"@,
        }
    }

    pub fn model_info(&self) -> (info: ModelInfo)
        ensures
            info.id@ == self.name(),
            info.stems@ == self.stem_order(),
    {
        match self {
            ModelOptions::FourStem => ModelInfo {
                id: "htdemucs",
                stems: vec![StemId::Drums, StemId::Bass, StemId::Other, StemId::Vocals],
            },
            ModelOptions::FineTuned(_) => ModelInfo {
                id: "htdemucs_ft",
                stems: vec![StemId::Drums, StemId::Bass, StemId::Other, StemId::Vocals],
            },
            ModelOptions::SixStem => ModelInfo {
                id: "htdemucs_6s",
                stems: vec![
                    StemId::Drums,
                    StemId::Bass,
                    StemId::Other,
                    StemId::Vocals,
                    StemId::Guitar,
                    StemId::Piano,
                ],
            },
        }
    }
}

} // verus!
