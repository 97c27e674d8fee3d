use rustingo::autograd::TopoSort;
use rustingo::error::Error;
use rustingo::gpu::Device;
use rustingo::layout::transpose_data;
use rustingo::math::{Matrix, Vector};
use rustingo::rng::{Rng, DEFAULT_SEED};
use rustingo::shape::{
    add_bias_dims, batch_shape, check_data_len, check_shape, checked_numel, kaiming_fan_in,
    linspace_steps, matmul_dims, size_of, transpose_dims, xavier_fan_sum,
};

fn invalid(msg: &str) -> Error {
    Error::InvalidInput(msg.to_string())
}

/// Drives a traversal over a graph given as (node, parents) pairs.
fn topo(root: usize, graph: &[(usize, Vec<usize>)]) -> (Vec<usize>, Vec<usize>) {
    let mut t = TopoSort::new(root);
    let mut asked = Vec::new();
    while let Some(id) = t.pending() {
        asked.push(id);
        let parents = graph.iter().find(|(n, _)| *n == id).map(|(_, p)| p.clone()).unwrap_or_default();
        t.provide(parents);
    }
    (t.into_order(), asked)
}

// ─── Device ──────────────────────────────────────────────────────────────────

#[test]
fn device_kinds() {
    assert!(Device::Cpu.is_cpu());
    assert!(!Device::Cpu.is_gpu());
    assert!(Device::Gpu(0).is_gpu());
    assert!(!Device::Gpu(0).is_cpu());
    assert_eq!(Device::Gpu(2).gpu_index(), Some(2));
    assert_eq!(Device::Cpu.gpu_index(), None);
    assert_eq!(Device::cpu(), Device::Cpu);
    assert_eq!(Device::gpu(3), Device::Gpu(3));
    assert_eq!(Device::default(), Device::Cpu);
}

// ─── Rng ─────────────────────────────────────────────────────────────────────

#[test]
fn rng_known_stream() {
    let mut r = Rng::new(1);
    assert_eq!(r.next_u64(), 1082269761);
    assert_eq!(r.next_u64(), 1152992998833853505);
    assert_eq!(r.next_u64(), 11177516664432764457);
}

#[test]
fn rng_zero_seed_uses_default() {
    let mut a = Rng::new(0);
    let mut b = Rng::new(DEFAULT_SEED);
    assert_eq!(a.next_u64(), 65948600090440590);
    assert_eq!(b.next_u64(), 65948600090440590);
}

#[test]
fn rng_same_seed_same_stream() {
    let mut a = Rng::new(99);
    let mut b = Rng::new(99);
    for _ in 0..100 {
        let x = a.next_u64();
        assert_ne!(x, 0);
        assert_eq!(x, b.next_u64());
    }
}

#[test]
fn rng_unit_bits_are_floats_in_one_two() {
    let mut r = Rng::new(1);
    assert_eq!(r.next_unit_bits(), 0x3f80_0000);
    assert_eq!(r.next_unit_bits(), 0x3f88_0020);
    assert_eq!(r.next_unit_bits(), 0x3fcd_8f42);
    let mut r = Rng::new(7);
    for _ in 0..1000 {
        let v = f32::from_bits(r.next_unit_bits()) - 1.0;
        assert!((0.0..1.0).contains(&v));
    }
}

// ─── Shapes ──────────────────────────────────────────────────────────────────

#[test]
fn shape_numel() {
    assert_eq!(size_of(&[]), 1);
    assert_eq!(size_of(&[2, 3, 4]), 24);
    assert_eq!(size_of(&[5, 0, 7]), 0);
    assert_eq!(checked_numel(&[usize::MAX, 2]), None);
    assert_eq!(checked_numel(&[usize::MAX, 2, 0]), None);
    assert_eq!(checked_numel(&[0, usize::MAX, 2]), Some(0));
}

#[test]
fn shape_check_reports_both() {
    assert_eq!(check_shape(&[2, 3], &[2, 3]), Ok(()));
    assert_eq!(
        check_shape(&[2, 3], &[3, 2]),
        Err(Error::ShapeMismatch { expected: vec![2, 3], got: vec![3, 2] })
    );
    assert!(check_shape(&[2], &[2, 1]).is_err());
}

#[test]
fn shape_data_len() {
    assert_eq!(check_data_len(6, &[2, 3]), Ok(()));
    assert_eq!(check_data_len(1, &[]), Ok(()));
    assert_eq!(check_data_len(2, &[3]), Err(Error::SizeMismatch { expected: 3, got: 2 }));
}

#[test]
fn shape_matmul() {
    assert_eq!(matmul_dims(&[2, 3], &[3, 4]), Ok((2, 3, 4)));
    assert_eq!(
        matmul_dims(&[1, 2], &[1, 2]),
        Err(Error::MatmulIncompatible { a_cols: 2, b_rows: 1 })
    );
    assert_eq!(matmul_dims(&[2], &[2, 2]), Err(invalid("matmul requires exactly 2-D tensors")));
}

#[test]
fn shape_transpose_and_bias() {
    assert_eq!(transpose_dims(&[2, 5]), Ok((2, 5)));
    assert_eq!(transpose_dims(&[2, 5, 1]), Err(invalid("transpose requires a 2-D tensor")));
    assert_eq!(add_bias_dims(&[4, 3], &[3]), Ok((4, 3)));
    assert_eq!(
        add_bias_dims(&[4, 3], &[4]),
        Err(Error::ShapeMismatch { expected: vec![3], got: vec![4] })
    );
    assert_eq!(add_bias_dims(&[3], &[3]), Err(invalid("add_bias requires a 2-D input tensor")));
}

#[test]
fn shape_initialisers() {
    assert_eq!(xavier_fan_sum(&[4, 8]), Ok(12));
    assert_eq!(xavier_fan_sum(&[2, 4, 8]), Ok(12));
    assert_eq!(
        xavier_fan_sum(&[4]),
        Err(invalid("xavier_uniform requires at least a 2-D shape [fan_in, fan_out]"))
    );
    assert_eq!(kaiming_fan_in(&[5, 2]), Ok(5));
    assert_eq!(kaiming_fan_in(&[]), Err(invalid("kaiming_uniform requires at least a 1-D shape")));
    assert_eq!(linspace_steps(5), Ok(4));
    assert_eq!(linspace_steps(1), Err(invalid("linspace: n must be ≥ 2")));
    assert_eq!(batch_shape(&[3]), vec![1, 3]);
    assert_eq!(batch_shape(&[2, 3]), vec![2, 3]);
}

// ─── Graph ordering ──────────────────────────────────────────────────────────

#[test]
fn topo_single_node() {
    let (order, asked) = topo(5, &[]);
    assert_eq!(order, vec![5]);
    assert_eq!(asked, vec![5]);
}

#[test]
fn topo_diamond_each_node_once_parents_first() {
    // 4 = f(2, 3); 2 = g(1); 3 = h(1)
    let graph = vec![(4, vec![2, 3]), (2, vec![1]), (3, vec![1]), (1, vec![])];
    let (order, asked) = topo(4, &graph);
    assert_eq!(order, vec![1, 2, 3, 4]);
    assert_eq!(asked, vec![4, 2, 1, 3]);
}

#[test]
fn topo_repeated_parent_visited_once() {
    // y = x + x
    let (order, asked) = topo(10, &[(10, vec![3, 3]), (3, vec![])]);
    assert_eq!(order, vec![3, 10]);
    assert_eq!(asked, vec![10, 3]);
}

#[test]
fn topo_chain_root_last() {
    let graph = vec![(9, vec![8]), (8, vec![7]), (7, vec![6]), (6, vec![])];
    let (order, _) = topo(9, &graph);
    assert_eq!(order, vec![6, 7, 8, 9]);
}

#[test]
fn topo_every_parent_before_child() {
    let graph = vec![
        (20, vec![11, 12, 13]),
        (11, vec![1, 2]),
        (12, vec![2, 3]),
        (13, vec![11, 3]),
        (1, vec![]),
        (2, vec![1]),
        (3, vec![]),
    ];
    let (order, _) = topo(20, &graph);
    assert_eq!(order.len(), 7);
    for (i, node) in order.iter().enumerate() {
        for p in &graph.iter().find(|(n, _)| n == node).unwrap().1 {
            let j = order.iter().position(|x| x == p).unwrap();
            assert!(j < i);
        }
    }
    assert_eq!(*order.last().unwrap(), 20);
}

// ─── Matrix and vector ───────────────────────────────────────────────────────

#[test]
fn matrix_new_checks() {
    let m = Matrix::new(2, 3, vec![1.0, 2.0, 3.0, 4.0, 5.0, 6.0]).unwrap();
    assert_eq!(m.get(1, 2), 6.0);
    assert_eq!(Matrix::new(0, 3, Vec::<f64>::new()), Err(invalid("Matrix dimensions must be non-zero")));
    assert_eq!(
        Matrix::new(2, 2, vec![1, 2, 3]),
        Err(Error::SizeMismatch { expected: 4, got: 3 })
    );
}

#[test]
fn matrix_from_2d() {
    let m = Matrix::from_2d(vec![vec![1, 2, 3], vec![4, 5, 6]]).unwrap();
    assert_eq!((m.rows, m.cols), (2, 3));
    assert_eq!(m.data, vec![1, 2, 3, 4, 5, 6]);
    assert_eq!(m.row(1), &[4, 5, 6]);
    assert_eq!(Matrix::<i32>::from_2d(vec![]), Err(invalid("Matrix data must not be empty")));
    assert_eq!(
        Matrix::from_2d(vec![vec![1, 2], vec![3]]),
        Err(invalid("All rows must have the same number of columns"))
    );
}

#[test]
fn matrix_set_get_transpose() {
    let mut m = Matrix::fill(2, 3, 0u32);
    m.set(1, 2, 9);
    assert_eq!(m.get(1, 2), 9);
    assert_eq!(m.get(0, 2), 0);
    let t = m.transpose();
    assert_eq!((t.rows, t.cols), (3, 2));
    assert_eq!(t.get(2, 1), 9);
    assert_eq!(t.transpose(), m);
}

#[test]
fn matrix_shape_checks() {
    let a = Matrix::fill(2, 3, 1.0);
    let b = Matrix::fill(3, 2, 1.0);
    assert_eq!(
        a.check_same_shape(&b),
        Err(Error::ShapeMismatch { expected: vec![2, 3], got: vec![3, 2] })
    );
    assert_eq!(a.check_same_shape(&a.clone()), Ok(()));
    assert_eq!(a.dot_dims(&b), Ok((2, 3, 2)));
    assert_eq!(a.dot_dims(&a), Err(Error::MatmulIncompatible { a_cols: 3, b_rows: 2 }));
}

#[test]
fn vector_basics() {
    let mut v = Vector::from_vec(vec![1.0, 2.0, 3.0]);
    assert_eq!(v.len(), 3);
    assert!(!v.is_empty());
    v.set(1, 5.0);
    assert_eq!(v.get(1), 5.0);
    assert!(Vector::<f64>::full(0, 1.0).is_empty());
    assert_eq!(Vector::full(2, 4u8).data, vec![4, 4]);
    let w = Vector::from_vec(vec![1.0, 2.0]);
    assert_eq!(
        v.check_same_len(&w),
        Err(Error::ShapeMismatch { expected: vec![3], got: vec![2] })
    );
    assert_eq!(v.check_same_len(&v.clone()), Ok(()));
}

#[test]
fn transpose_data_layout() {
    let d = vec![1, 2, 3, 4, 5, 6];
    let t = transpose_data(&d, 2, 3);
    assert_eq!(t, vec![1, 4, 2, 5, 3, 6]);
    assert_eq!(transpose_data(&t, 3, 2), d);
}
