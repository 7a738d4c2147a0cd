use minidb::iter_algos::{
    cycles_2, cycles_2_loop, primes, primes_loop, run_length_encode, run_length_encode_loop,
    sum_squares_odd, sum_squares_odd_loop, vertices, vertices_loop, wrap_call,
};

#[test]
fn nasty_test() {
    let f1 = |x| x * 100;
    let mut vec = Vec::new();
    let f2 = move |v1, v2| {
        vec.push(v1 + v2);
        let val = vec[0];
        std::mem::drop(vec);
        val
    };
    let val = wrap_call(f1, f2);
    assert_eq!(val, 300);
}

#[test]
fn sum_squares_odd_cases() {
    let empty: &[u32] = &[];
    assert_eq!(sum_squares_odd_loop(empty), 0);
    assert_eq!(sum_squares_odd(empty), 0);
    let evens = [2, 4, 6];
    assert_eq!(sum_squares_odd_loop(&evens), 0);
    assert_eq!(sum_squares_odd(&evens), 0);
    let nums = [1, 2, 3, 4, 5];
    assert_eq!(sum_squares_odd_loop(&nums), 35);
    assert_eq!(sum_squares_odd(&nums), 35);
}

#[test]
fn vertices_and_cycles() {
    let edges = [(1, 2), (2, 1), (3, 4), (4, 3), (5, 5), (2, 3)];
    let v_loop = vertices_loop(&edges);
    let v_iter = vertices(&edges);
    assert_eq!(v_loop, v_iter);
    assert_eq!(v_loop, vec![1, 2, 3, 4, 5]);
    let c_loop = cycles_2_loop(&edges);
    let c_iter = cycles_2(&edges);
    assert_eq!(c_loop, c_iter);
    assert_eq!(c_loop, vec![1, 2, 3, 4]);
}

#[test]
fn cycles_2_duplicates() {
    let edges = [(1, 2), (2, 1), (1, 2), (2, 1), (2, 2)];
    assert_eq!(cycles_2_loop(&edges), vec![1, 2]);
    assert_eq!(cycles_2(&edges), vec![1, 2]);
}

#[test]
fn empty_graph() {
    let edges: [(u32, u32); 0] = [];
    assert_eq!(vertices_loop(&edges), Vec::<u32>::new());
    assert_eq!(vertices(&edges), Vec::<u32>::new());
    assert_eq!(cycles_2_loop(&edges), Vec::<u32>::new());
    assert_eq!(cycles_2(&edges), Vec::<u32>::new());
}

#[test]
fn primes_examples() {
    assert_eq!(primes_loop(0), Vec::<u32>::new());
    assert_eq!(primes(0), Vec::<u32>::new());
    assert_eq!(primes_loop(2), Vec::<u32>::new());
    assert_eq!(primes(2), Vec::<u32>::new());
    assert_eq!(primes_loop(3), vec![2]);
    assert_eq!(primes(3), vec![2]);
    assert_eq!(primes_loop(10), vec![2, 3, 5, 7]);
    assert_eq!(primes(10), vec![2, 3, 5, 7]);
    assert_eq!(primes_loop(30), vec![2, 3, 5, 7, 11, 13, 17, 19, 23, 29]);
    assert_eq!(primes(30), vec![2, 3, 5, 7, 11, 13, 17, 19, 23, 29]);
}

#[test]
fn primes_large_count() {
    let p100 = primes(100);
    assert_eq!(p100.len(), 25);
    assert_eq!(p100.last(), Some(&97));
    assert_eq!(p100, primes_loop(100));
}

#[test]
fn wrap_call_fn_ptr() {
    fn times2(x: u32) -> u32 {
        x * 2
    }
    let val = wrap_call(times2, |a, b| a + b);
    assert_eq!(val, 6);
}

#[test]
fn rle_basic_and_edges() {
    assert_eq!(run_length_encode_loop(&[]), Vec::<(u32, usize)>::new());
    assert_eq!(run_length_encode(&[]), Vec::<(u32, usize)>::new());
    assert_eq!(run_length_encode_loop(&[7]), vec![(7, 1)]);
    assert_eq!(run_length_encode(&[7]), vec![(7, 1)]);
    let data = [1, 1, 2, 2, 2, 1];
    let expect = vec![(1, 2), (2, 3), (1, 1)];
    assert_eq!(run_length_encode_loop(&data), expect);
    assert_eq!(run_length_encode(&data), expect);
}

#[test]
fn rle_varied_runs() {
    let data = [3, 3, 3, 3, 2, 2, 9, 9, 9, 1, 1, 1, 1, 1];
    let expect = vec![(3, 4), (2, 2), (9, 3), (1, 5)];
    assert_eq!(run_length_encode_loop(&data), expect);
    assert_eq!(run_length_encode(&data), expect);
}

#[test]
fn compose_all_identity_and_order() {
    fn add1(x: i32) -> i32 {
        x + 1
    }
    fn times2(x: i32) -> i32 {
        x * 2
    }
    fn square(x: i32) -> i32 {
        x * x
    }

    let empty: [fn(i32) -> i32; 0] = [];
    let id_iter = minidb::iter_algos::compose_all(&empty);
    let id_loop = minidb::iter_algos::compose_all_loop(&empty);
    assert_eq!(id_iter(42), 42);
    assert_eq!(id_loop(42), 42);

    let fns: [fn(i32) -> i32; 3] = [add1, times2, square];
    let f_iter = minidb::iter_algos::compose_all(&fns);
    let f_loop = minidb::iter_algos::compose_all_loop(&fns);
    assert_eq!(f_iter(3), 64);
    assert_eq!(f_loop(3), 64);

    let gns: [fn(i32) -> i32; 3] = [square, times2, add1];
    let g_iter = minidb::iter_algos::compose_all(&gns);
    assert_eq!(g_iter(3), ((3 * 3) * 2) + 1);
}

#[test]
fn compose_all_matches_loop() {
    fn f1(x: i32) -> i32 {
        x - 5
    }
    fn f2(x: i32) -> i32 {
        x * 3
    }
    fn f3(x: i32) -> i32 {
        x + 10
    }
    let funcs: [fn(i32) -> i32; 3] = [f1, f2, f3];
    let c1 = minidb::iter_algos::compose_all(&funcs);
    let c2 = minidb::iter_algos::compose_all_loop(&funcs);
    for x in [-10, -1, 0, 1, 7, 20] {
        assert_eq!(c1(x), c2(x));
    }
}
