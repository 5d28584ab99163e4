use system_runtime::diffusion::apply_results::{apply_diffusion_results, nodes_have_place};
use system_runtime::diffusion::diffusion_job::{
    DiffusionAmountData, DiffusionJob, _get_exclusive_slices,
};
use system_runtime::diffusion::extract_graph::{
    DiffusionAmountDataOwned, DiffusionJobOwned, DiffusionNode,
};
use system_runtime::diffusion::symbol_element_remap::SymbolStringOwned;
use system_runtime::interop_extern::data::JaggedIndexing;
use system_runtime::interop_extern::diffusion::{tree_from_edges, DiffusionEdge};

fn bits(values: &[f32]) -> Vec<u32> {
    values.iter().map(|v| v.to_bits()).collect()
}

fn floats(values: &[u32]) -> Vec<f32> {
    values.iter().map(|v| f32::from_bits(*v)).collect()
}

fn node(parent: i32, first: i32, count: i32, constant: f32) -> DiffusionNode {
    DiffusionNode {
        parent_node_index: parent,
        index_in_target: 0,
        target_parameters: JaggedIndexing { index: 0, length: 0 },
        index_in_temp_amount_list: first,
        total_resource_types: count,
        diffusion_constant: constant.to_bits(),
    }
}

fn star() -> DiffusionJobOwned {
    // one parent with two resources, three children with one, two and no resources
    DiffusionJobOwned {
        nodes: vec![node(-1, 0, 2, 0.5), node(0, 2, 1, 0.5), node(0, 3, 2, 1.5), node(0, 5, 0, 9.0)],
        node_max_capacities: bits(&[100.0, 100.0, 100.0, 100.0, 3.0]),
        diffusion_global_multiplier: 0.5f32.to_bits(),
    }
}

fn run(job: &DiffusionJobOwned, start: &[f32], steps: i32) -> (Vec<f32>, Vec<f32>, bool) {
    let mut owned = DiffusionAmountDataOwned {
        node_amount_list_a: bits(start),
        node_amount_list_b: vec![0; start.len()],
        latest_in_a: true,
    };
    let latest_in_a = {
        let mut data = owned.borrowed_mut();
        assert!(!job.borrowed().diffuse_between(&mut data, steps));
        data.latest_in_a
    };
    (floats(&owned.node_amount_list_a), floats(&owned.node_amount_list_b), latest_in_a)
}

#[test]
fn one_step_moves_along_every_edge_by_the_amounts_before_it() {
    let job = star();
    // edge to the first child: k = 0.5 * (0.5 + 0.5) / 2 = 0.25, flow = 0.25 * (16 - 0) = 4
    // edge to the second child: k = 0.5 * (0.5 + 1.5) / 2 = 0.5,
    //   first resource: flow = 0.5 * (16 - 32) = -8, second: parent 8, child 4 at capacity 3
    let (a, b, latest_in_a) = run(&job, &[16.0, 8.0, 0.0, 32.0, 4.0], 1);
    assert!(!latest_in_a);
    assert_eq!(a, vec![16.0, 8.0, 0.0, 32.0, 4.0]);
    assert_eq!(b, vec![20.0, 8.0, 4.0, 24.0, 4.0]);
}

#[test]
fn the_buffers_take_turns() {
    let job = star();
    let (a, b, latest_in_a) = run(&job, &[16.0, 8.0, 0.0, 32.0, 4.0], 2);
    assert!(latest_in_a);
    assert_eq!(b, vec![20.0, 8.0, 4.0, 24.0, 4.0]);
    // second step: flows 0.25 * (20 - 4) = 4 and 0.5 * (20 - 24) = -2
    assert_eq!(a, vec![18.0, 8.0, 8.0, 22.0, 4.0]);
    let (_, _, after_three) = run(&job, &[16.0, 8.0, 0.0, 32.0, 4.0], 3);
    assert!(!after_three);
}

#[test]
fn no_step_no_change() {
    let job = star();
    for steps in [0, -1, i32::MIN] {
        let (a, b, latest_in_a) = run(&job, &[16.0, 8.0, 0.0, 32.0, 4.0], steps);
        assert!(latest_in_a);
        assert_eq!(a, vec![16.0, 8.0, 0.0, 32.0, 4.0]);
        assert_eq!(b, vec![0.0; 5]);
    }
}

#[test]
fn a_resource_at_its_capacity_is_not_filled_by_any_edge() {
    // the parent is full and both children hold more: nothing reaches it
    let job = DiffusionJobOwned {
        nodes: vec![node(-1, 0, 1, 1.0), node(0, 1, 1, 1.0), node(0, 2, 1, 1.0)],
        node_max_capacities: bits(&[5.0, 100.0, 100.0]),
        diffusion_global_multiplier: 0.5f32.to_bits(),
    };
    let (_, after, _) = run(&job, &[5.0, 9.0, 7.0], 1);
    assert_eq!(after, vec![5.0, 9.0, 7.0]);
    // a parent below its capacity takes from both children in one step
    let (_, after, _) = run(&job, &[4.0, 8.0, 6.0], 1);
    assert_eq!(after, vec![7.0, 6.0, 5.0]);
}

#[test]
fn amounts_may_fall_below_zero() {
    let job = DiffusionJobOwned {
        nodes: vec![node(-1, 0, 1, 1.0), node(0, 1, 1, 1.0)],
        node_max_capacities: bits(&[100.0, 100.0]),
        diffusion_global_multiplier: 2.0f32.to_bits(),
    };
    let (_, after, _) = run(&job, &[0.0, 4.0], 1);
    assert_eq!(after, vec![8.0, -4.0]);
}

#[test]
fn rounding_can_change_the_sum_over_an_edge() {
    // k = 0.5 and the difference 1 - 1/3 is rounded, so is the flow, and the parent's loss
    // and the child's gain are rounded once more: the two amounts no longer add up to the
    // same number
    let job = DiffusionJobOwned {
        nodes: vec![node(-1, 0, 1, 0.5), node(0, 1, 1, 0.5)],
        node_max_capacities: bits(&[100.0, 100.0]),
        diffusion_global_multiplier: 1.0f32.to_bits(),
    };
    let third = f32::from_bits(0x3eaa_aaab);
    let (_, after, _) = run(&job, &[1.0, third], 1);
    let hardware_flow = 0.5f32 * (1.0f32 - third);
    assert_eq!(after, vec![1.0 - hardware_flow, third + hardware_flow]);
    assert_eq!(bits(&after), vec![0x3f2a_aaab, 0x3f2a_aaaa]);
    assert!(1.0f32 + third != after[0] + after[1]);
}

#[test]
fn the_current_buffer_is_handed_out() {
    let mut a = bits(&[1.0, 2.0]);
    let mut b = bits(&[3.0, 4.0]);
    let mut data =
        DiffusionAmountData { node_amount_list_a: &mut a, node_amount_list_b: &mut b, latest_in_a: false };
    assert_eq!(floats(data.get_latest_data()), vec![3.0, 4.0]);
    {
        let (source, target) = data.take_buffer_pair();
        assert_eq!(floats(source), vec![3.0, 4.0]);
        assert_eq!(floats(target), vec![1.0, 2.0]);
        target[0] = 9.0f32.to_bits();
    }
    assert!(data.latest_in_a);
    assert_eq!(floats(data.get_latest_data()), vec![9.0, 2.0]);
    {
        let (source, target) = data.take_buffer_pair();
        assert_eq!(floats(source), vec![9.0, 2.0]);
        assert_eq!(floats(target), vec![3.0, 4.0]);
    }
    assert!(!data.latest_in_a);
}

#[test]
fn a_node_finds_its_resources() {
    let place = node(-1, 1, 2, 0.5);
    let mut data = bits(&[1.0, 2.0, 3.0, 4.0]);
    assert_eq!(floats(place.get_resource_slice(&data)), vec![2.0, 3.0]);
    place.get_resource_slice_mut(&mut data)[1] = 8.0f32.to_bits();
    assert_eq!(floats(&data), vec![1.0, 2.0, 8.0, 4.0]);
    let none = node(-1, 4, 0, 0.5);
    assert!(none.get_resource_slice(&data).is_empty());
}

#[test]
fn a_borrowed_job_is_the_job() {
    let job = star();
    let borrowed: DiffusionJob = job.borrowed();
    assert_eq!(borrowed.nodes.len(), 4);
    assert_eq!(borrowed.node_max_capacities, &job.node_max_capacities[..]);
    assert_eq!(borrowed.diffusion_global_multiplier, job.diffusion_global_multiplier);
}

fn placed(index_in_target: i32, params_at: i32, length: u16, first: i32, count: i32) -> DiffusionNode {
    DiffusionNode {
        parent_node_index: -1,
        index_in_target,
        target_parameters: JaggedIndexing { index: params_at, length },
        index_in_temp_amount_list: first,
        total_resource_types: count,
        diffusion_constant: 0.75f32.to_bits(),
    }
}

fn apply(nodes: Vec<DiffusionNode>, target: &mut SymbolStringOwned, clear_amounts: bool) {
    let job = DiffusionJobOwned {
        nodes,
        node_max_capacities: bits(&[10.0, 20.0, 30.0]),
        diffusion_global_multiplier: 1.0f32.to_bits(),
    };
    let mut stale = bits(&[-1.0, -2.0, -3.0]);
    let mut current = bits(&[1.0, 2.0, 3.0]);
    let data = DiffusionAmountData {
        node_amount_list_a: &mut stale,
        node_amount_list_b: &mut current,
        latest_in_a: false,
    };
    let applied =
        apply_diffusion_results(job.borrowed(), &data, &mut target.borrow_mut(), 42, 43, clear_amounts);
    assert_eq!(applied, Some(()));
}

fn blank() -> SymbolStringOwned {
    SymbolStringOwned {
        symbols: vec![43, 1, 43, 3],
        param_indexing: vec![
            JaggedIndexing { index: 0, length: 2 },
            JaggedIndexing { index: 2, length: 1 },
            JaggedIndexing { index: -1, length: 5 },
            JaggedIndexing { index: 8, length: 0 },
        ],
        parameters: bits(&[0.0; 8]),
    }
}

#[test]
fn nodes_are_encoded_as_constant_and_pairs() {
    let mut target = blank();
    apply(vec![placed(1, 1, 6, 0, 2), placed(3, 7, 1, 2, 0)], &mut target, false);
    assert_eq!(target.symbols, vec![43, 42, 43, 42]);
    assert_eq!((target.param_indexing[1].index, target.param_indexing[1].length), (1, 6));
    assert_eq!((target.param_indexing[3].index, target.param_indexing[3].length), (7, 1));
    assert_eq!((target.param_indexing[0].index, target.param_indexing[0].length), (0, 2));
    // the sixth parameter of the first node lies beyond its pairs and stays
    assert_eq!(floats(&target.parameters), vec![0.0, 0.75, 1.0, 10.0, 2.0, 20.0, 0.0, 0.75]);
}

#[test]
fn clearing_empties_every_amount_symbol_that_is_left() {
    let mut target = blank();
    apply(vec![placed(0, 4, 3, 2, 1)], &mut target, true);
    assert_eq!(target.symbols, vec![42, 1, 43, 3]);
    assert_eq!((target.param_indexing[0].index, target.param_indexing[0].length), (4, 3));
    assert_eq!((target.param_indexing[2].index, target.param_indexing[2].length), (-1, 0));
    assert_eq!((target.param_indexing[1].index, target.param_indexing[1].length), (2, 1));
    assert_eq!(floats(&target.parameters), vec![0.0, 0.0, 0.0, 0.0, 0.75, 3.0, 30.0, 0.0]);
}

#[test]
fn a_later_node_overwrites_an_earlier_one() {
    let mut target = blank();
    apply(vec![placed(1, 0, 3, 0, 1), placed(1, 2, 3, 1, 1)], &mut target, false);
    assert_eq!((target.param_indexing[1].index, target.param_indexing[1].length), (2, 3));
    assert_eq!(floats(&target.parameters), vec![0.75, 1.0, 0.75, 2.0, 20.0, 0.0, 0.0, 0.0]);
}

#[test]
fn a_job_knows_whether_it_can_run() {
    let job = star();
    assert!(job.borrowed().is_well_formed(5));
    assert!(!job.borrowed().is_well_formed(4));
    assert!(!job.borrowed().is_well_formed(6));
    let with = |nodes: Vec<DiffusionNode>| {
        let job = DiffusionJobOwned {
            nodes,
            node_max_capacities: bits(&[1.0, 1.0]),
            diffusion_global_multiplier: 1.0f32.to_bits(),
        };
        job.borrowed().is_well_formed(2)
    };
    assert!(with(vec![]));
    assert!(with(vec![node(-1, 0, 2, 0.5), node(0, 2, 0, 0.5)]));
    assert!(with(vec![node(-1, 0, 2, 0.5), node(0, 0, 2, 0.5)]));
    assert!(!with(vec![node(0, 0, 1, 0.5)]));
    assert!(!with(vec![node(1, 0, 1, 0.5), node(-1, 1, 1, 0.5)]));
    assert!(!with(vec![node(-2, 0, 1, 0.5)]));
    assert!(!with(vec![node(-1, -1, 1, 0.5)]));
    assert!(!with(vec![node(-1, 0, -1, 0.5)]));
    assert!(!with(vec![node(-1, 1, 2, 0.5)]));
    assert!(!with(vec![node(-1, i32::MAX, i32::MAX, 0.5)]));
}

#[test]
fn a_node_names_the_edge_to_its_parent() {
    let job = star();
    let borrowed = job.borrowed();
    assert!(borrowed.edge_to_parent(0).is_none());
    let edge = borrowed.edge_to_parent(2).unwrap();
    assert_eq!((edge.node_a_index, edge.node_b_index), (2, 0));
}

#[test]
fn nodes_know_whether_they_have_their_place() {
    assert!(nodes_have_place(&[placed(1, 1, 6, 0, 2), placed(3, 7, 1, 2, 0)], 4, 8));
    assert!(nodes_have_place(&[], 0, 0));
    assert!(!nodes_have_place(&[placed(4, 1, 6, 0, 2)], 4, 8));
    assert!(!nodes_have_place(&[placed(-1, 1, 6, 0, 2)], 4, 8));
    assert!(!nodes_have_place(&[placed(1, -1, 6, 0, 2)], 4, 8));
    assert!(!nodes_have_place(&[placed(1, 3, 6, 0, 2)], 4, 8));
    assert!(!nodes_have_place(&[placed(1, 1, 4, 0, 2)], 4, 8));
    assert!(!nodes_have_place(&[placed(1, 1, 0, 0, 0)], 4, 8));
    assert!(!nodes_have_place(&[placed(1, 1, 6, 0, -1)], 4, 8));
    assert!(nodes_have_place(&[placed(1, 1, 5, 0, 2)], 4, 8));
}

#[test]
fn edges_make_a_tree() {
    let loose = vec![node(-1, 0, 1, 0.5), node(-1, 1, 1, 0.5), node(-1, 2, 1, 0.5)];
    let edge = |a: i32, b: i32| DiffusionEdge { node_a_index: a, node_b_index: b };
    let tree = tree_from_edges(&loose, &[edge(2, 0), edge(1, 0)]).unwrap();
    let parents: Vec<i32> = tree.iter().map(|n| n.parent_node_index).collect();
    assert_eq!(parents, vec![-1, 0, 0]);
    assert_eq!(tree[2].index_in_temp_amount_list, 2);
    assert_eq!(tree_from_edges(&loose, &[]).unwrap().len(), 3);
    assert!(tree_from_edges(&loose, &[edge(1, 0), edge(1, 2)]).is_none());
    assert!(tree_from_edges(&loose, &[edge(3, 0)]).is_none());
    assert!(tree_from_edges(&loose, &[edge(-1, 0)]).is_none());
    assert!(tree_from_edges(&loose, &[edge(1, -1)]).is_none());
    let taken = vec![node(0, 0, 1, 0.5), node(-1, 1, 1, 0.5)];
    assert!(tree_from_edges(&taken, &[edge(0, 1)]).is_none());
    assert!(tree_from_edges(&taken, &[edge(1, 0)]).is_some());
}

#[test]
fn two_nodes_get_their_resources_at_once() {
    let first = node(-1, 0, 2, 0.5);
    let second = node(0, 3, 1, 0.5);
    let mut data = bits(&[1.0, 2.0, 3.0, 4.0, 5.0]);
    {
        let (a, b) = _get_exclusive_slices(&first, &second, &mut data);
        assert_eq!((floats(a), floats(b)), (vec![1.0, 2.0], vec![4.0]));
        a[1] = 9.0f32.to_bits();
        b[0] = 8.0f32.to_bits();
    }
    assert_eq!(floats(&data), vec![1.0, 9.0, 3.0, 8.0, 5.0]);
    {
        let (b, a) = _get_exclusive_slices(&second, &first, &mut data);
        assert_eq!((floats(a), floats(b)), (vec![1.0, 9.0], vec![8.0]));
        b[0] = 7.0f32.to_bits();
    }
    assert_eq!(floats(&data), vec![1.0, 9.0, 3.0, 7.0, 5.0]);
    let none = node(-1, 5, 0, 0.5);
    let (a, b) = _get_exclusive_slices(&none, &second, &mut data);
    assert!(a.is_empty());
    assert_eq!(floats(b), vec![7.0]);
}
