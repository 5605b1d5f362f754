use sts2_manager::model::{split_dropped_step, DropStep, ModKind};

fn take(step: DropStep) -> Vec<usize> {
    match step {
        DropStep::Take(v) => v,
        DropStep::Enter(i) => panic!("entered {i}"),
    }
}

#[test]
fn dropped_folder_with_one_inner_folder_is_entered() {
    let kinds = vec![ModKind::UnknownFile, ModKind::Directory];
    assert!(matches!(split_dropped_step(0, &kinds), DropStep::Enter(1)));
    assert!(matches!(split_dropped_step(2, &kinds), DropStep::Enter(1)));
    assert_eq!(take(split_dropped_step(3, &kinds)), vec![1]);
}

#[test]
fn dropped_folder_with_several_mods_is_split() {
    let kinds = vec![ModKind::Archive, ModKind::UnknownFile, ModKind::Directory, ModKind::Package];
    assert_eq!(take(split_dropped_step(0, &kinds)), vec![0, 2, 3]);
    assert_eq!(take(split_dropped_step(0, &vec![ModKind::UnknownFile])), Vec::<usize>::new());
    assert_eq!(take(split_dropped_step(1, &vec![ModKind::Archive])), vec![0]);
}
