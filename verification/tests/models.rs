use demucs_core::model::{picked_rows, stem_row};
use demucs_core::{route, ModelOptions, Route, StemId};

#[test]
fn four_stem_info() {
    let info = ModelOptions::FourStem.model_info();
    assert_eq!(info.id, "htdemucs");
    assert_eq!(
        info.stems,
        vec![StemId::Drums, StemId::Bass, StemId::Other, StemId::Vocals]
    );
}

#[test]
fn six_stem_info() {
    let info = ModelOptions::SixStem.model_info();
    assert_eq!(info.id, "htdemucs_6s");
    assert_eq!(
        info.stems,
        vec![
            StemId::Drums,
            StemId::Bass,
            StemId::Other,
            StemId::Vocals,
            StemId::Guitar,
            StemId::Piano
        ]
    );
}

#[test]
fn fine_tuned_info_does_not_depend_on_selection() {
    for selected in [vec![], vec![StemId::Vocals], vec![StemId::Piano]] {
        let info = ModelOptions::FineTuned(selected).model_info();
        assert_eq!(info.id, "htdemucs_ft");
        assert_eq!(
            info.stems,
            vec![StemId::Drums, StemId::Bass, StemId::Other, StemId::Vocals]
        );
    }
}

#[test]
fn row_is_the_first_occurrence() {
    let ids = vec![StemId::Bass, StemId::Drums, StemId::Bass];
    assert_eq!(stem_row(&ids, StemId::Bass), Some(0));
    assert_eq!(stem_row(&ids, StemId::Drums), Some(1));
    assert_eq!(stem_row(&ids, StemId::Vocals), None);
}

#[test]
fn rows_are_picked_in_model_order() {
    let ids = ModelOptions::FineTuned(vec![]).model_info().stems;
    assert_eq!(
        picked_rows(&ids, &vec![StemId::Vocals, StemId::Piano, StemId::Drums, StemId::Vocals]),
        vec![0, 3]
    );
    assert_eq!(picked_rows(&ids, &vec![]), Vec::<usize>::new());
}

#[test]
fn routes() {
    let tuned = ModelOptions::FineTuned(vec![StemId::Bass]);
    assert_eq!(route(&ModelOptions::FourStem, 343_980), Route::Single);
    assert_eq!(route(&ModelOptions::SixStem, 0), Route::Single);
    assert_eq!(route(&tuned, 343_980), Route::Single);
    assert_eq!(route(&ModelOptions::FourStem, 343_981), Route::Pipelined);
    assert_eq!(route(&ModelOptions::SixStem, 343_981), Route::Pipelined);
    assert_eq!(route(&tuned, 343_981), Route::Sequential);
}
