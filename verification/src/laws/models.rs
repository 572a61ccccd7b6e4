//! What calls on models and their stems return.

use vstd::prelude::*;

use crate::error::{DemucsError, Transfer};
use crate::model::{
    law_picked, picked_rows, stem_row, ModelInfo, ModelOptions, Stem, StemId,
};

verus! {

/// Each variant has its name, and its stems in a fixed order. What is selected of
/// the fine-tuned variant changes neither.
pub proof fn law_model_info(options: &ModelOptions, info: ModelInfo)
    requires
        call_ensures(ModelOptions::model_info, (options,), info),
    ensures
        call_requires(ModelOptions::model_info, (options,)),
        options is SixStem ==> info.id@ == "htdemucs_6s"@,
        options is FourStem ==> info.id@ == "htdemucs"@,
        options is FineTuned ==> info.id@ == "htdemucs_ft"@,
        info.stems@.len() == if options is SixStem { 6int } else { 4int },
        info.stems@[0] == StemId::Drums,
        info.stems@[1] == StemId::Bass,
        info.stems@[2] == StemId::Other,
        info.stems@[3] == StemId::Vocals,
        options is SixStem ==> info.stems@[4] == StemId::Guitar && info.stems@[5]
            == StemId::Piano,
        options.stem_order() == info.stems@,
{
}

/// The row of a stem is the first place in the order that holds it, if there is
/// one.
pub proof fn law_stem_row(ids: &Vec<StemId>, id: StemId, found: Option<usize>)
    requires
        call_ensures(stem_row, (ids, id), found),
    ensures
        call_requires(stem_row, (ids, id)),
        found matches Some(row) ==> row < ids@.len() && ids@[row as int] == id && !ids@.take(
            row as int,
        ).contains(id),
        found is None ==> !ids@.contains(id),
{
    if let Some(row) = found {
        assert(!ids@.take(row as int).contains(id)) by {
            if ids@.take(row as int).contains(id) {
                let k = choose|k: int| 0 <= k < row && ids@.take(row as int)[k] == id;
                assert(ids@[k] == id);
            }
        }
    }
}

/// The picked rows are those of the selected stems, each once, and ascend.
pub proof fn law_picked_rows(ids: &Vec<StemId>, selected: &Vec<StemId>, rows: Vec<usize>)
    requires
        call_ensures(picked_rows, (ids, selected), rows),
    ensures
        call_requires(picked_rows, (ids, selected)),
        forall|j: int, k: int| 0 <= j < k < rows@.len() ==> rows@[j] < rows@[k],
        forall|j: int| 0 <= j < rows@.len() ==> #[trigger] rows@[j] < ids@.len(),
        forall|row: usize| row < ids@.len() ==> (#[trigger] rows@.contains(row)
            <==> selected@.contains(ids@[row as int])),
{
    assert(ids.len() == ids@.len());
    law_picked(ids@, selected@, ids@.len() as int);
    assert forall|row: usize| row < ids@.len() implies (#[trigger] rows@.contains(row)
        <==> selected@.contains(ids@[row as int])) by {
        if rows@.contains(row) {
            let j = choose|j: int| 0 <= j < rows@.len() && rows@[j] == row;
            assert(selected@.contains(ids@[rows@[j] as int]));
        }
    }
}

/// A failed transfer is a tensor error, whose message says which transfer it was
/// and goes on with the reason.
pub proof fn law_failed_transfer(transfer: Transfer, reason: &str, error: DemucsError)
    requires
        call_ensures(Transfer::failed, (transfer, reason), error),
    ensures
        call_requires(Transfer::failed, (transfer, reason)),
        error is Tensor,
        error->Tensor_0@ == (match transfer {
            Transfer::FreqBulkRead => "freq bulk read failed: "@,
            Transfer::TimeBulkRead => "time bulk read failed: "@,
            Transfer::FreqRead => "freq read failed: "@,
            Transfer::TimeRead => "time read failed: "@,
            Transfer::FreqExtraction => "freq extraction failed: "@,
            Transfer::TimeExtraction => "time extraction failed: "@,
        }) + reason@,
{
}

/// A stem is seen as its id and the samples of its two sides.
pub proof fn law_stem_is_seen_whole<T>(stem: Stem<T>)
    ensures
        stem@.id == stem.id,
        stem@.left == stem.left@,
        stem@.right == stem.right@,
{
}

} // verus!
