use ndfft::array::NdArray;
use ndfft::error::TransformError;
use ndfft::transform::{fft, fft2, fftn, fftnd, ifft, ifft2, ifftn, ifftnd, Kernel};
use rustfft::num_complex::Complex;
use rustfft::FFTplanner;

type C = Complex<f64>;

fn dft(lane: Vec<C>, inverse: bool) -> Vec<C> {
    let mut input = lane;
    let mut output = vec![Complex::new(0.0, 0.0); input.len()];
    let mut planner = FFTplanner::new(inverse);
    let plan = planner.plan_fft(input.len());
    plan.process(&mut input, &mut output);
    output
}

fn unscale(v: C, n: usize) -> C {
    v.unscale(f64::from(n as u32))
}

fn reals(values: &[f64]) -> Vec<C> {
    let mut v = Vec::new();
    for x in values {
        v.push(Complex::new(*x, 0.0));
    }
    v
}

fn sample(n: usize) -> Vec<C> {
    let mut v = Vec::new();
    for k in 0..n {
        let t = k as f64;
        v.push(Complex::new((t * 0.37).sin() + 0.25 * t, (t * 1.3).cos() - 0.5));
    }
    v
}

fn close(a: &[C], b: &[C]) -> bool {
    if a.len() != b.len() {
        return false;
    }
    for k in 0..a.len() {
        if (a[k] - b[k]).norm() > 1e-9 {
            return false;
        }
    }
    true
}

fn array(shape: &[usize], data: Vec<C>) -> NdArray<C> {
    NdArray::from_shape_vec(shape.to_vec(), data).unwrap()
}

fn zeros(shape: &[usize]) -> NdArray<C> {
    let mut n = 1;
    for d in shape {
        n *= d;
    }
    array(shape, vec![Complex::new(0.0, 0.0); n])
}

#[test]
fn fft_of_an_impulse_is_flat() {
    let kernel = Kernel::new(dft, unscale);
    let out = fft(reals(&[1.0, 0.0, 0.0, 0.0]), &kernel);
    assert!(close(&out, &reals(&[1.0, 1.0, 1.0, 1.0])));
}

#[test]
fn fft_of_a_constant_is_an_impulse() {
    let kernel = Kernel::new(dft, unscale);
    let out = fft(reals(&[1.0, 1.0, 1.0, 1.0]), &kernel);
    assert!(close(&out, &reals(&[4.0, 0.0, 0.0, 0.0])));
}

#[test]
fn fft_of_a_ramp_has_known_values() {
    let kernel = Kernel::new(dft, unscale);
    let out = fft(reals(&[0.0, 1.0, 2.0, 3.0]), &kernel);
    let want = vec![
        Complex::new(6.0, 0.0),
        Complex::new(-2.0, 2.0),
        Complex::new(-2.0, 0.0),
        Complex::new(-2.0, -2.0),
    ];
    assert!(close(&out, &want));
}

#[test]
fn ifft_divides_by_the_length() {
    let kernel = Kernel::new(dft, unscale);
    let out = ifft(reals(&[4.0, 0.0, 0.0, 0.0]), &kernel);
    assert!(close(&out, &reals(&[1.0, 1.0, 1.0, 1.0])));
    let out3 = ifft(reals(&[3.0, 0.0, 0.0]), &kernel);
    assert!(close(&out3, &reals(&[1.0, 1.0, 1.0])));
}

#[test]
fn fft_and_ifft_of_short_sequences() {
    let kernel = Kernel::new(dft, unscale);
    assert_eq!(fft(Vec::<C>::new(), &kernel), Vec::<C>::new());
    assert_eq!(ifft(Vec::<C>::new(), &kernel), Vec::<C>::new());
    let one = vec![Complex::new(2.5, -1.0)];
    assert!(close(&fft(one.clone(), &kernel), &one));
    assert!(close(&ifft(one.clone(), &kernel), &one));
}

#[test]
fn inverse_round_trip_in_one_dimension() {
    let kernel = Kernel::new(dft, unscale);
    for n in 1..40 {
        let x = sample(n);
        let back = ifft(fft(x.clone(), &kernel), &kernel);
        assert!(close(&back, &x));
    }
}

#[test]
fn fft2_of_a_corner_impulse_is_all_ones() {
    let kernel = Kernel::new(dft, unscale);
    let mut input = array(&[2, 2], reals(&[1.0, 0.0, 0.0, 0.0]));
    let mut output = zeros(&[2, 2]);
    assert_eq!(fft2(&mut input, &mut output, &kernel), Ok(()));
    assert!(close(&output.to_vec(), &reals(&[1.0, 1.0, 1.0, 1.0])));
    // The input holds the result of the first step, along axis 0.
    assert!(close(&input.to_vec(), &reals(&[1.0, 0.0, 1.0, 0.0])));
}

#[test]
fn fft2_is_axis_zero_then_axis_one() {
    let kernel = Kernel::new(dft, unscale);
    let data = sample(12);
    let mut input = array(&[3, 4], data.clone());
    let mut output = zeros(&[3, 4]);
    assert_eq!(fft2(&mut input, &mut output, &kernel), Ok(()));

    let mut first = array(&[3, 4], data);
    let mut mid = zeros(&[3, 4]);
    assert_eq!(fftn(&mut first, &mut mid, 0, &kernel), Ok(()));
    let mut last = zeros(&[3, 4]);
    assert_eq!(fftn(&mut mid, &mut last, 1, &kernel), Ok(()));
    assert!(close(&input.to_vec(), &mid.to_vec()));
    assert!(close(&output.to_vec(), &last.to_vec()));
}

#[test]
fn ifft2_is_axis_one_then_axis_zero() {
    let kernel = Kernel::new(dft, unscale);
    let data = sample(12);
    let mut input = array(&[3, 4], data.clone());
    let mut output = zeros(&[3, 4]);
    assert_eq!(ifft2(&mut input, &mut output, &kernel), Ok(()));

    let mut first = array(&[3, 4], data);
    let mut mid = zeros(&[3, 4]);
    assert_eq!(ifftn(&mut first, &mut mid, 1, &kernel), Ok(()));
    let mut last = zeros(&[3, 4]);
    assert_eq!(ifftn(&mut mid, &mut last, 0, &kernel), Ok(()));
    assert!(close(&input.to_vec(), &mid.to_vec()));
    assert!(close(&output.to_vec(), &last.to_vec()));
}

#[test]
fn ifft2_undoes_fft2() {
    let kernel = Kernel::new(dft, unscale);
    let data = sample(20);
    let mut a = array(&[4, 5], data.clone());
    let mut b = zeros(&[4, 5]);
    assert_eq!(fft2(&mut a, &mut b, &kernel), Ok(()));
    let mut c = zeros(&[4, 5]);
    assert_eq!(ifft2(&mut b, &mut c, &kernel), Ok(()));
    assert!(close(&c.to_vec(), &data));
}

#[test]
fn fftn_transforms_each_lane_on_its_own() {
    let kernel = Kernel::new(dft, unscale);
    let shape = [2usize, 3, 4];
    let data = sample(24);
    for axis in 0..3 {
        let mut input = array(&shape, data.clone());
        let mut output = zeros(&shape);
        assert_eq!(fftn(&mut input, &mut output, axis, &kernel), Ok(()));
        assert_eq!(output.shape(), &shape.to_vec());
        assert_eq!(input.to_vec(), data);
        for i in 0..2 {
            for j in 0..3 {
                for k in 0..4 {
                    let mut idx = [i, j, k];
                    if idx[axis] != 0 {
                        continue;
                    }
                    let mut lane = Vec::new();
                    let mut got = Vec::new();
                    for m in 0..shape[axis] {
                        idx[axis] = m;
                        lane.push(input.get(&idx).unwrap());
                        got.push(output.get(&idx).unwrap());
                    }
                    assert!(close(&got, &dft(lane, false)));
                }
            }
        }
    }
}

#[test]
fn ifftn_normalizes_by_the_extent_of_its_axis() {
    let kernel = Kernel::new(dft, unscale);
    let mut input = array(&[2, 3], reals(&[6.0, 0.0, 0.0, 6.0, 0.0, 0.0]));
    let mut output = zeros(&[2, 3]);
    assert_eq!(ifftn(&mut input, &mut output, 1, &kernel), Ok(()));
    assert!(close(&output.to_vec(), &reals(&[2.0, 2.0, 2.0, 2.0, 2.0, 2.0])));
    assert_eq!(ifftn(&mut input, &mut output, 0, &kernel), Ok(()));
    assert!(close(&output.to_vec(), &reals(&[6.0, 0.0, 0.0, 0.0, 0.0, 0.0])));
}

#[test]
fn multi_axis_round_trip() {
    let kernel = Kernel::new(dft, unscale);
    let shape = [3usize, 4, 5];
    let data = sample(60);
    let orders: Vec<Vec<usize>> = vec![
        vec![0],
        vec![1],
        vec![2],
        vec![0, 1],
        vec![2, 0],
        vec![1, 2],
        vec![0, 1, 2],
        vec![2, 1, 0],
        vec![1, 0, 2],
    ];
    for axes in orders {
        let mut a = array(&shape, data.clone());
        let mut b = zeros(&shape);
        assert_eq!(fftnd(&mut a, &mut b, &axes, &kernel), Ok(()));
        let mut c = zeros(&shape);
        assert_eq!(ifftnd(&mut b, &mut c, &axes, &kernel), Ok(()));
        assert!(close(&c.to_vec(), &data));
    }
}

#[test]
fn axis_order_does_not_change_the_result() {
    let kernel = Kernel::new(dft, unscale);
    let data = sample(12);
    let mut a = array(&[3, 4], data.clone());
    let mut out01 = zeros(&[3, 4]);
    assert_eq!(fftnd(&mut a, &mut out01, &[0, 1], &kernel), Ok(()));
    let mut b = array(&[3, 4], data);
    let mut out10 = zeros(&[3, 4]);
    assert_eq!(fftnd(&mut b, &mut out10, &[1, 0], &kernel), Ok(()));
    assert!(close(&out01.to_vec(), &out10.to_vec()));
}

#[test]
fn fftnd_with_one_axis_leaves_the_input_alone() {
    let kernel = Kernel::new(dft, unscale);
    let data = sample(6);
    let mut input = array(&[2, 3], data.clone());
    let mut output = zeros(&[2, 3]);
    assert_eq!(fftnd(&mut input, &mut output, &[1], &kernel), Ok(()));
    assert_eq!(input.to_vec(), data);
    let mut single = zeros(&[2, 3]);
    assert_eq!(fftn(&mut input, &mut single, 1, &kernel), Ok(()));
    assert!(close(&output.to_vec(), &single.to_vec()));
}

#[test]
fn fftnd_leaves_all_steps_but_the_last_in_the_input() {
    let kernel = Kernel::new(dft, unscale);
    let data = sample(24);
    let mut input = array(&[2, 3, 4], data.clone());
    let mut output = zeros(&[2, 3, 4]);
    assert_eq!(fftnd(&mut input, &mut output, &[2, 0, 1], &kernel), Ok(()));

    let mut a = array(&[2, 3, 4], data);
    let mut b = zeros(&[2, 3, 4]);
    assert_eq!(fftnd(&mut a, &mut b, &[2, 0], &kernel), Ok(()));
    assert!(close(&input.to_vec(), &b.to_vec()));
    let mut c = zeros(&[2, 3, 4]);
    assert_eq!(fftn(&mut b, &mut c, 1, &kernel), Ok(()));
    assert!(close(&output.to_vec(), &c.to_vec()));
}

#[test]
fn fftnd_takes_a_repeated_axis_as_it_stands() {
    let kernel = Kernel::new(dft, unscale);
    let data = sample(8);
    let mut input = array(&[4, 2], data.clone());
    let mut output = zeros(&[4, 2]);
    assert_eq!(fftnd(&mut input, &mut output, &[0, 0], &kernel), Ok(()));
    let mut a = array(&[4, 2], data);
    let mut b = zeros(&[4, 2]);
    assert_eq!(fftn(&mut a, &mut b, 0, &kernel), Ok(()));
    let mut c = zeros(&[4, 2]);
    assert_eq!(fftn(&mut b, &mut c, 0, &kernel), Ok(()));
    assert!(close(&output.to_vec(), &c.to_vec()));
}

#[test]
fn shape_mismatch_is_rejected_by_every_transform() {
    let kernel = Kernel::new(dft, unscale);
    let data = sample(6);
    let marker = vec![Complex::new(9.0, 9.0); 6];
    let mut input = array(&[2, 3], data.clone());
    let mut output = array(&[3, 2], marker.clone());
    let wrong = Err(TransformError::ShapeMismatch);
    assert_eq!(fftn(&mut input, &mut output, 0, &kernel), wrong);
    assert_eq!(output.to_vec(), marker);
    assert_eq!(ifftn(&mut input, &mut output, 0, &kernel), wrong);
    assert_eq!(output.to_vec(), marker);
    assert_eq!(fftnd(&mut input, &mut output, &[0, 1], &kernel), wrong);
    assert_eq!(output.to_vec(), marker);
    assert_eq!(ifftnd(&mut input, &mut output, &[0, 1], &kernel), wrong);
    assert_eq!(output.to_vec(), marker);
    assert_eq!(fft2(&mut input, &mut output, &kernel), wrong);
    assert_eq!(output.to_vec(), marker);
    assert_eq!(ifft2(&mut input, &mut output, &kernel), wrong);
    assert_eq!(output.to_vec(), marker);
    assert_eq!(output.shape(), &vec![3, 2]);
    assert_eq!(input.to_vec(), data);
}

#[test]
fn shape_mismatch_in_the_number_of_axes() {
    let kernel = Kernel::new(dft, unscale);
    let mut input = array(&[6], sample(6));
    let mut output = zeros(&[2, 3]);
    assert_eq!(fftn(&mut input, &mut output, 0, &kernel), Err(TransformError::ShapeMismatch));
    assert_eq!(
        fftnd(&mut input, &mut output, &[], &kernel),
        Err(TransformError::ShapeMismatch)
    );
}

#[test]
fn empty_axis_list_is_rejected() {
    let kernel = Kernel::new(dft, unscale);
    let data = sample(6);
    let marker = vec![Complex::new(9.0, 9.0); 6];
    let mut input = array(&[2, 3], data.clone());
    let mut output = array(&[2, 3], marker.clone());
    assert_eq!(
        fftnd(&mut input, &mut output, &[], &kernel),
        Err(TransformError::EmptyAxisList)
    );
    assert_eq!(
        ifftnd(&mut input, &mut output, &[], &kernel),
        Err(TransformError::EmptyAxisList)
    );
    assert_eq!(output.to_vec(), marker);
    assert_eq!(input.to_vec(), data);
}

#[test]
fn invalid_axis_is_rejected_before_any_step() {
    let kernel = Kernel::new(dft, unscale);
    let data = sample(6);
    let marker = vec![Complex::new(9.0, 9.0); 6];
    let mut input = array(&[2, 3], data.clone());
    let mut output = array(&[2, 3], marker.clone());
    let wrong = Err(TransformError::InvalidAxis);
    assert_eq!(fftn(&mut input, &mut output, 2, &kernel), wrong);
    assert_eq!(ifftn(&mut input, &mut output, 7, &kernel), wrong);
    assert_eq!(fftnd(&mut input, &mut output, &[0, 2], &kernel), wrong);
    assert_eq!(ifftnd(&mut input, &mut output, &[1, 0, 3], &kernel), wrong);
    assert_eq!(output.to_vec(), marker);
    assert_eq!(input.to_vec(), data);
}

#[test]
fn two_dimensional_transforms_need_two_axes() {
    let kernel = Kernel::new(dft, unscale);
    let marker = vec![Complex::new(9.0, 9.0); 4];
    let mut input = array(&[4], sample(4));
    let mut output = array(&[4], marker.clone());
    assert_eq!(fft2(&mut input, &mut output, &kernel), Err(TransformError::InvalidAxis));
    assert_eq!(ifft2(&mut input, &mut output, &kernel), Err(TransformError::InvalidAxis));
    assert_eq!(output.to_vec(), marker);
}

#[test]
fn transforms_of_arrays_without_elements() {
    let kernel = Kernel::new(dft, unscale);
    let mut input = array(&[0, 3], Vec::new());
    let mut output = array(&[0, 3], Vec::new());
    assert_eq!(fft2(&mut input, &mut output, &kernel), Ok(()));
    assert_eq!(ifftnd(&mut input, &mut output, &[1], &kernel), Ok(()));
    assert_eq!(output.to_vec(), Vec::<C>::new());
}

// An exact kernel on Gaussian integers, for lengths that divide four.

type G = (i64, i64);

fn times_i(v: G, quarter_turns: usize) -> G {
    match quarter_turns % 4 {
        0 => v,
        1 => (-v.1, v.0),
        2 => (-v.0, -v.1),
        _ => (v.1, -v.0),
    }
}

fn exact_dft(lane: Vec<G>, inverse: bool) -> Vec<G> {
    let n = lane.len();
    let mut out = Vec::new();
    for k in 0..n {
        let mut acc = (0, 0);
        for j in 0..n {
            let turns = (4 / n) * ((j * k) % n);
            let turns = if inverse { turns } else { (4 - turns) % 4 };
            let t = times_i(lane[j], turns);
            acc = (acc.0 + t.0, acc.1 + t.1);
        }
        out.push(acc);
    }
    out
}

fn exact_unscale(v: G, n: usize) -> G {
    (v.0 / n as i64, v.1 / n as i64)
}

fn gaussian(n: usize) -> Vec<G> {
    let mut v = Vec::new();
    for k in 0..n {
        let t = k as i64;
        v.push((3 * t - 7, 5 - t * t));
    }
    v
}

#[test]
fn exact_kernel_in_one_dimension() {
    let kernel = Kernel::new(exact_dft, exact_unscale);
    assert_eq!(
        fft(vec![(0, 0), (1, 0), (2, 0), (3, 0)], &kernel),
        vec![(6, 0), (-2, 2), (-2, 0), (-2, -2)]
    );
    assert_eq!(
        ifft(vec![(6, 0), (-2, 2), (-2, 0), (-2, -2)], &kernel),
        vec![(0, 0), (1, 0), (2, 0), (3, 0)]
    );
    assert_eq!(ifft(vec![(8, 4), (0, 0)], &kernel), vec![(4, 2), (4, 2)]);
}

#[test]
fn exact_round_trip_over_several_axes() {
    let kernel = Kernel::new(exact_dft, exact_unscale);
    let data = gaussian(16);
    let mut a = NdArray::from_shape_vec(vec![2, 4, 2], data.clone()).unwrap();
    let mut b = NdArray::from_shape_vec(vec![2, 4, 2], vec![(0, 0); 16]).unwrap();
    assert_eq!(fftnd(&mut a, &mut b, &[1, 2, 0], &kernel), Ok(()));
    let mut c = NdArray::from_shape_vec(vec![2, 4, 2], vec![(0, 0); 16]).unwrap();
    assert_eq!(ifftnd(&mut b, &mut c, &[1, 2, 0], &kernel), Ok(()));
    assert_eq!(c.to_vec(), data);
}

#[test]
fn exact_axis_orders_agree() {
    let kernel = Kernel::new(exact_dft, exact_unscale);
    let data = gaussian(8);
    let mut a = NdArray::from_shape_vec(vec![2, 4], data.clone()).unwrap();
    let mut b = NdArray::from_shape_vec(vec![2, 4], vec![(0, 0); 8]).unwrap();
    assert_eq!(fftnd(&mut a, &mut b, &[0, 1], &kernel), Ok(()));
    let mut c = NdArray::from_shape_vec(vec![2, 4], data).unwrap();
    let mut d = NdArray::from_shape_vec(vec![2, 4], vec![(0, 0); 8]).unwrap();
    assert_eq!(fftnd(&mut c, &mut d, &[1, 0], &kernel), Ok(()));
    assert_eq!(b.to_vec(), d.to_vec());
}

#[test]
fn exact_fft2_of_a_small_array() {
    let kernel = Kernel::new(exact_dft, exact_unscale);
    let mut input =
        NdArray::from_shape_vec(vec![2, 2], vec![(1, 0), (2, 0), (3, 0), (4, 0)]).unwrap();
    let mut output = NdArray::from_shape_vec(vec![2, 2], vec![(0, 0); 4]).unwrap();
    assert_eq!(fft2(&mut input, &mut output, &kernel), Ok(()));
    assert_eq!(output.to_vec(), vec![(10, 0), (-2, 0), (-4, 0), (0, 0)]);
    assert_eq!(input.to_vec(), vec![(4, 0), (6, 0), (-2, 0), (-2, 0)]);
}

#[test]
fn exact_ifft2_of_a_small_array() {
    let kernel = Kernel::new(exact_dft, exact_unscale);
    let mut input =
        NdArray::from_shape_vec(vec![2, 2], vec![(10, 0), (-2, 0), (-4, 0), (0, 0)]).unwrap();
    let mut output = NdArray::from_shape_vec(vec![2, 2], vec![(0, 0); 4]).unwrap();
    assert_eq!(ifft2(&mut input, &mut output, &kernel), Ok(()));
    assert_eq!(output.to_vec(), vec![(1, 0), (2, 0), (3, 0), (4, 0)]);
    // The first step ran along axis 1.
    assert_eq!(input.to_vec(), vec![(4, 0), (6, 0), (-2, 0), (-2, 0)]);
}
