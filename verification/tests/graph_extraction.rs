use system_runtime::diffusion::extract_graph::{
    count_nodes_and_params, extract_edges_and_nodes, extract_edges_and_nodes_in_parallel,
    extract_edges_and_nodes_in_place, remap_is_fitting, source_is_extractable,
    write_amount_placeholders, DiffusionNode, SymbolStringRead, SymbolStringWrite,
};
use system_runtime::diffusion::symbol_element_remap::{
    from_elements, is_packable, to_elements, SymbolElementOwned, SymbolStringOwned,
};
use system_runtime::interop_extern::data::{IndexesIn, JaggedIndexing};
use system_runtime::interop_extern::diffusion::{
    DiffusionEdge, LSystemMatchErrorCode, LSystemSingleSymbolMatchData,
};

const OPEN: i32 = 10;
const CLOSE: i32 = 11;
const NODE: i32 = 12;
const AMOUNT: i32 = 13;

fn bits(values: &[f32]) -> Vec<u32> {
    values.iter().map(|v| v.to_bits()).collect()
}

fn floats(values: &[u32]) -> Vec<f32> {
    values.iter().map(|v| f32::from_bits(*v)).collect()
}

fn element(symbol: i32, params: &[f32]) -> SymbolElementOwned {
    SymbolElementOwned { symbol, params: bits(params) }
}

fn entry(symbol_at: i32, params_at: i32) -> LSystemSingleSymbolMatchData {
    LSystemSingleSymbolMatchData {
        tmp_parameter_memory_space: JaggedIndexing { index: 0, length: 0 },
        is_trivial: false,
        matched_rule_index_in_possible: 0,
        selected_replacement_pattern: 0,
        replacement_symbol_indexing: JaggedIndexing { index: symbol_at, length: 1 },
        replacement_parameter_indexing: JaggedIndexing { index: params_at, length: 9 },
        error_code: LSystemMatchErrorCode::TooManyParameters,
    }
}

fn bush() -> SymbolStringOwned {
    // a [ b x [ c ] ] [ d ] y e
    from_elements(vec![
        element(NODE, &[0.5, 1.0, 10.0, 2.0, 20.0]),
        element(OPEN, &[]),
        element(NODE, &[0.25, 3.0, 30.0]),
        element(AMOUNT, &[0.5, 100.0]),
        element(OPEN, &[]),
        element(NODE, &[0.125, 4.0, 40.0, 5.0, 50.0, 6.0, 60.0]),
        element(CLOSE, &[]),
        element(CLOSE, &[]),
        element(OPEN, &[]),
        element(NODE, &[1.0]),
        element(CLOSE, &[]),
        element(AMOUNT, &[8.0, 16.0, 32.0]),
        element(NODE, &[2.0, 7.0, 70.0, 0.0]),
    ])
}

fn shape(node: &DiffusionNode) -> (i32, i32, i32, u16, i32, i32, f32) {
    (
        node.parent_node_index,
        node.index_in_target,
        node.target_parameters.index,
        node.target_parameters.length,
        node.index_in_temp_amount_list,
        node.total_resource_types,
        f32::from_bits(node.diffusion_constant),
    )
}

#[test]
fn nodes_come_in_source_order_with_their_parents() {
    let mut string = bush();
    let (job, amounts) =
        extract_edges_and_nodes_in_place(&mut string.borrow_mut(), NODE, AMOUNT, OPEN, CLOSE);
    let shapes: Vec<_> = job.nodes.iter().map(shape).collect();
    assert_eq!(
        shapes,
        vec![
            (-1, 0, 0, 5, 0, 2, 0.5),
            (0, 2, 5, 3, 2, 1, 0.25),
            (1, 5, 10, 7, 3, 3, 0.125),
            (0, 9, 17, 1, 6, 0, 1.0),
            (0, 12, 21, 4, 6, 1, 2.0),
        ]
    );
    // the first amount symbol adds to b, the second to a (the cursor after
    // the second branch closed)
    assert_eq!(floats(&amounts.node_amount_list_a), vec![9.0, 18.0, 3.5, 4.0, 5.0, 6.0, 7.0]);
    assert_eq!(amounts.node_amount_list_b, vec![0u32; 7]);
    assert!(amounts.latest_in_a);
    assert_eq!(floats(&job.node_max_capacities), vec![10.0, 20.0, 30.0, 40.0, 50.0, 60.0, 70.0]);
    assert_eq!(f32::from_bits(job.diffusion_global_multiplier), 1.0);
}

#[test]
fn reading_a_string_twice_gives_the_same_nodes() {
    let mut string = bush();
    let before = (string.symbols.clone(), string.parameters.clone());
    let (first, first_amounts) =
        extract_edges_and_nodes_in_place(&mut string.borrow_mut(), NODE, AMOUNT, OPEN, CLOSE);
    assert_eq!((string.symbols.clone(), string.parameters.clone()), before);
    let (second, second_amounts) =
        extract_edges_and_nodes_in_place(&mut string.borrow_mut(), NODE, AMOUNT, OPEN, CLOSE);
    let shapes = |nodes: &Vec<DiffusionNode>| nodes.iter().map(shape).collect::<Vec<_>>();
    assert_eq!(shapes(&first.nodes), shapes(&second.nodes));
    assert_eq!(first_amounts.node_amount_list_a, second_amounts.node_amount_list_a);
    assert_eq!(first.node_max_capacities, second.node_max_capacities);
}

#[test]
fn a_closing_without_opening_changes_nothing() {
    let plain = from_elements(vec![
        element(NODE, &[0.5, 1.0, 10.0]),
        element(NODE, &[0.5, 2.0, 20.0]),
        element(OPEN, &[]),
        element(NODE, &[0.5, 3.0, 30.0]),
        element(CLOSE, &[]),
        element(NODE, &[0.5, 4.0, 40.0]),
    ]);
    let noisy = from_elements(vec![
        element(CLOSE, &[]),
        element(NODE, &[0.5, 1.0, 10.0]),
        element(CLOSE, &[]),
        element(CLOSE, &[]),
        element(NODE, &[0.5, 2.0, 20.0]),
        element(OPEN, &[]),
        element(NODE, &[0.5, 3.0, 30.0]),
        element(CLOSE, &[]),
        element(CLOSE, &[]),
        element(NODE, &[0.5, 4.0, 40.0]),
        element(CLOSE, &[]),
    ]);
    let parents = |string: &SymbolStringOwned| {
        let estimate = count_nodes_and_params(&string.borrow(), NODE);
        let (job, _) =
            extract_edges_and_nodes(&string.borrow(), estimate, NODE, AMOUNT, OPEN, CLOSE, None);
        job.nodes.iter().map(|n| n.parent_node_index).collect::<Vec<_>>()
    };
    assert_eq!(parents(&plain), vec![-1, 0, 1, 1]);
    assert_eq!(parents(&noisy), vec![-1, 0, 1, 1]);
}

#[test]
fn an_amount_without_a_node_before_it_is_dropped() {
    let mut string = from_elements(vec![
        element(AMOUNT, &[5.0]),
        element(OPEN, &[]),
        element(AMOUNT, &[6.0]),
        element(CLOSE, &[]),
        element(NODE, &[0.5, 1.0, 10.0]),
    ]);
    let (job, amounts) =
        extract_edges_and_nodes_in_place(&mut string.borrow_mut(), NODE, AMOUNT, OPEN, CLOSE);
    assert_eq!(job.nodes.len(), 1);
    assert_eq!(floats(&amounts.node_amount_list_a), vec![1.0]);
}

#[test]
fn a_code_given_twice_counts_as_a_node_first() {
    let mut string = from_elements(vec![
        element(NODE, &[0.5, 1.0, 10.0]),
        element(NODE, &[0.5, 2.0, 20.0]),
    ]);
    let (job, amounts) =
        extract_edges_and_nodes_in_place(&mut string.borrow_mut(), NODE, NODE, NODE, NODE);
    assert_eq!(job.nodes.len(), 2);
    assert_eq!(floats(&amounts.node_amount_list_a), vec![1.0, 2.0]);
}

#[test]
fn counts_are_exact() {
    let string = bush();
    let estimate = count_nodes_and_params(&string.borrow(), NODE);
    assert_eq!((estimate.node_count, estimate.param_count), (5, 7));
    let none = count_nodes_and_params(&string.borrow(), 99);
    assert_eq!((none.node_count, none.param_count), (0, 0));
}

#[test]
fn extractable_strings_are_told_apart() {
    assert!(source_is_extractable(&bush().borrow(), NODE));
    // an amount symbol read as a node has too few parameters only where it has none
    assert!(source_is_extractable(&bush().borrow(), AMOUNT));
    assert!(!source_is_extractable(&bush().borrow(), OPEN));
    let no_data = SymbolStringOwned {
        symbols: vec![NODE],
        param_indexing: vec![JaggedIndexing { index: -1, length: 3 }],
        parameters: bits(&[0.5, 1.0, 2.0]),
    };
    assert!(!source_is_extractable(&no_data.borrow(), NODE));
    assert!(source_is_extractable(&no_data.borrow(), AMOUNT));
    let beyond = SymbolStringOwned {
        symbols: vec![NODE],
        param_indexing: vec![JaggedIndexing { index: 1, length: 3 }],
        parameters: bits(&[0.5, 1.0, 2.0]),
    };
    assert!(!source_is_extractable(&beyond.borrow(), NODE));
    assert!(!beyond.borrow().is_well_formed());
    let at_the_end = SymbolStringOwned {
        symbols: vec![NODE, 7],
        param_indexing: vec![
            JaggedIndexing { index: 0, length: 3 },
            JaggedIndexing { index: 3, length: 0 },
        ],
        parameters: bits(&[0.5, 1.0, 2.0]),
    };
    assert!(source_is_extractable(&at_the_end.borrow(), NODE));
    assert!(at_the_end.borrow().is_well_formed());
    let empty = SymbolStringOwned { symbols: vec![], param_indexing: vec![], parameters: vec![] };
    assert!(source_is_extractable(&empty.borrow(), NODE));
}

#[test]
fn rewrite_mode_takes_places_from_the_table() {
    let source = from_elements(vec![
        element(NODE, &[0.5, 1.0, 10.0]),
        element(AMOUNT, &[2.0]),
        element(AMOUNT, &[]),
        element(NODE, &[0.25, 3.0, 30.0, 4.0, 40.0]),
    ]);
    let mut target = SymbolStringOwned {
        symbols: vec![0; 6],
        param_indexing: vec![JaggedIndexing { index: 1, length: 1 }; 6],
        parameters: bits(&[0.0; 10]),
    };
    let table = vec![entry(4, 5), entry(1, 10), entry(77, 77), entry(0, 0)];
    assert!(remap_is_fitting(&source.borrow(), &target.borrow(), &table, NODE, AMOUNT));
    let (job, amounts) = extract_edges_and_nodes_in_parallel(
        &source.borrow(),
        &mut target.borrow_mut(),
        &table,
        NODE,
        AMOUNT,
        OPEN,
        CLOSE,
    );
    let shapes: Vec<_> = job.nodes.iter().map(shape).collect();
    assert_eq!(shapes, vec![(-1, 4, 5, 3, 0, 1, 0.5), (0, 0, 0, 5, 1, 2, 0.25)]);
    assert_eq!(floats(&amounts.node_amount_list_a), vec![3.0, 3.0, 4.0]);
    // the amount symbol with parameters left its placeholder, the one without did not
    assert_eq!(target.symbols, vec![0, AMOUNT, 0, 0, 0, 0]);
    assert_eq!((target.param_indexing[1].index, target.param_indexing[1].length), (10, 0));
    assert_eq!((target.param_indexing[2].index, target.param_indexing[2].length), (1, 1));
    assert_eq!(target.parameters, bits(&[0.0; 10]));
}

#[test]
fn placeholders_alone() {
    let source = from_elements(vec![element(AMOUNT, &[2.0]), element(AMOUNT, &[3.0, 4.0])]);
    let mut target = SymbolStringOwned {
        symbols: vec![5, 6, 7],
        param_indexing: vec![JaggedIndexing { index: 0, length: 2 }; 3],
        parameters: bits(&[1.0, 2.0]),
    };
    let table = vec![entry(2, -1), entry(2, 1)];
    write_amount_placeholders(&source.borrow(), &mut target.borrow_mut(), &table, NODE, AMOUNT);
    assert_eq!(target.symbols, vec![5, 6, AMOUNT]);
    assert_eq!((target.param_indexing[2].index, target.param_indexing[2].length), (1, 0));
    assert_eq!((target.param_indexing[0].index, target.param_indexing[0].length), (0, 2));
}

#[test]
fn tables_that_do_not_fit_are_told_apart() {
    let source = from_elements(vec![element(NODE, &[0.5, 1.0, 10.0]), element(AMOUNT, &[2.0])]);
    let target = SymbolStringOwned {
        symbols: vec![0; 2],
        param_indexing: vec![JaggedIndexing { index: 0, length: 0 }; 2],
        parameters: bits(&[0.0; 4]),
    };
    let fits = |table: Vec<LSystemSingleSymbolMatchData>| {
        remap_is_fitting(&source.borrow(), &target.borrow(), &table, NODE, AMOUNT)
    };
    assert!(fits(vec![entry(0, 1), entry(1, 4)]));
    assert!(fits(vec![entry(1, 0), entry(0, -3)]));
    assert!(!fits(vec![entry(0, 1)]));
    assert!(!fits(vec![entry(0, 2), entry(1, 4)]));
    assert!(!fits(vec![entry(0, -1), entry(1, 4)]));
    assert!(!fits(vec![entry(2, 1), entry(1, 4)]));
    assert!(!fits(vec![entry(-1, 1), entry(1, 4)]));
    assert!(!fits(vec![entry(0, 1), entry(2, 4)]));
    assert!(!fits(vec![entry(0, 1), entry(-1, 4)]));
    assert!(!fits(vec![entry(0, 1), entry(1, 5)]));
}

#[test]
fn elements_pack_and_unpack() {
    let string = bush();
    assert_eq!(string.symbols.len(), 13);
    assert_eq!(string.parameters.len(), 25);
    assert_eq!((string.param_indexing[0].index, string.param_indexing[0].length), (0, 5));
    assert_eq!((string.param_indexing[1].index, string.param_indexing[1].length), (5, 0));
    assert_eq!((string.param_indexing[3].index, string.param_indexing[3].length), (8, 2));
    assert_eq!((string.param_indexing[12].index, string.param_indexing[12].length), (21, 4));
    let view = string.borrow();
    let elements = to_elements(&view);
    assert_eq!(elements.len(), 13);
    assert_eq!(elements[5].symbol, NODE);
    assert_eq!(floats(elements[5].params), vec![0.125, 4.0, 40.0, 5.0, 50.0, 6.0, 60.0]);
    assert_eq!(elements[4].symbol, OPEN);
    assert!(elements[4].params.is_empty());
    let empty = from_elements(vec![]);
    assert!(empty.symbols.is_empty() && empty.parameters.is_empty());
}

#[test]
fn strings_are_read_through_the_trait() {
    let mut string = bush();
    let view = string.borrow();
    assert_eq!(view.len(), 13);
    assert_eq!(view.symbol_at(3), AMOUNT);
    assert_eq!(floats(view.take_param_slice(3)), vec![0.5, 100.0]);
    assert_eq!(floats(view.take_slice(JaggedIndexing { index: 1, length: 2 })), vec![1.0, 10.0]);
    assert!(view.take_slice(JaggedIndexing { index: -1, length: 2 }).is_empty());
    assert_eq!(f32::from_bits(view.param_for(JaggedIndexing { index: 5, length: 3 }, 2)), 30.0);
    let writable = string.borrow_mut();
    assert_eq!(writable.len(), 13);
    assert_eq!(writable.symbol_at(0), NODE);
    assert_eq!(floats(writable.take_param_slice(2)), vec![0.25, 3.0, 30.0]);
    assert_eq!(floats(writable.borrowed().parameters), floats(writable.parameters));
}

#[test]
fn strings_are_written_through_the_trait() {
    let mut string = bush();
    {
        let mut writable = string.borrow_mut();
        writable.set_param_for(JaggedIndexing { index: 5, length: 3 }, 1, 9.5f32.to_bits());
        let params = writable.take_param_slice_mut(3);
        assert_eq!(floats(params), vec![0.5, 100.0]);
        params[1] = 7.0f32.to_bits();
    }
    assert_eq!(floats(&string.parameters[5..10]), vec![0.25, 9.5, 30.0, 0.5, 7.0]);
    assert_eq!(floats(&string.parameters[0..5]), vec![0.5, 1.0, 10.0, 2.0, 20.0]);
}

#[test]
fn descriptors_resolve_against_any_array() {
    let data = [10, 20, 30, 40];
    assert_eq!(JaggedIndexing { index: 1, length: 2 }.to_slice_ref(&data), &[20, 30]);
    assert_eq!(JaggedIndexing { index: 4, length: 0 }.to_slice_ref(&data), &[] as &[i32]);
    assert_eq!(JaggedIndexing { index: -1, length: 3 }.to_slice_ref(&data), &[] as &[i32]);
    assert_eq!(JaggedIndexing { index: 0, length: 4 }.to_slice_ref(&data), &data);
}

#[test]
fn an_edge_names_child_and_parent() {
    let edge = DiffusionEdge { node_a_index: 3, node_b_index: 1 };
    assert_eq!((edge.node_a_index, edge.node_b_index), (3, 1));
}

#[test]
fn elements_with_too_many_parameters_cannot_be_packed() {
    assert!(is_packable(&vec![]));
    assert!(is_packable(&vec![element(NODE, &[0.5, 1.0, 2.0]), element(OPEN, &[])]));
    let long = SymbolElementOwned { symbol: NODE, params: vec![0; 65_535] };
    assert!(is_packable(&vec![long.clone(), long.clone()]));
    let too_long = SymbolElementOwned { symbol: NODE, params: vec![0; 65_536] };
    assert!(!is_packable(&vec![long, too_long]));
}
