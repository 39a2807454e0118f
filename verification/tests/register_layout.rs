use lib::defaults::default_computer;
use lib::interface::register_visualisation::{
    RegisterVisualisationLayout, RegisterVisualisationPosition, ValueVisualisation,
};

fn at(column: usize, row: usize) -> RegisterVisualisationPosition {
    RegisterVisualisationPosition { column, row }
}

#[test]
fn scalars_go_down_and_vectors_and_indices_go_across() {
    let computer = default_computer(false);
    let layout = RegisterVisualisationLayout::new(&computer);
    let placed: Vec<(u32, ValueVisualisation, RegisterVisualisationPosition)> = layout
        .visualisations
        .iter()
        .map(|shown| (shown.register, shown.value_visualisation, shown.position))
        .collect();
    assert_eq!(
        placed,
        vec![
            (3, ValueVisualisation::Vector { index: 0 }, at(1, 0)),
            (8, ValueVisualisation::Index, at(1, 0)),
            (23, ValueVisualisation::Scalar, at(0, 0)),
            (24, ValueVisualisation::Scalar, at(0, 1)),
            (25, ValueVisualisation::Scalar, at(0, 2)),
        ]
    );
}

#[test]
fn a_second_vector_takes_the_next_column() {
    let computer = default_computer(true);
    let layout = RegisterVisualisationLayout::new(&computer);
    let vectors: Vec<(u32, RegisterVisualisationPosition)> = layout
        .visualisations
        .iter()
        .filter(|shown| shown.value_visualisation.is_vector())
        .map(|shown| (shown.register, shown.position))
        .collect();
    assert_eq!(vectors, vec![(3, at(1, 0)), (7, at(2, 0))]);
    let indices: Vec<(u32, RegisterVisualisationPosition)> = layout
        .visualisations
        .iter()
        .filter(|shown| shown.value_visualisation.is_index())
        .map(|shown| (shown.register, shown.position))
        .collect();
    assert_eq!(indices, vec![(8, at(1, 0)), (12, at(2, 0))]);
}

#[test]
fn a_vector_follows_its_selected_element() {
    let mut computer = default_computer(false);
    let layout = RegisterVisualisationLayout::new(&computer);
    let mut shown = layout.visualisations[0];
    // Select element 5 of D through its index register I.
    computer.registers.write(8, 5).unwrap();
    let d = computer.registers.get(3).unwrap();
    shown.update(d);
    assert_eq!(shown.value_visualisation, ValueVisualisation::Vector { index: 5 });
    assert!(!shown.value_visualisation.is_scalar());
}
