use lama_inpaint::image::{Gray8, Rgb8};
use lama_inpaint::inpaint::{
    after_engine, after_gpu_failure, build_input, check_sizes, composite, cpu_failure, finish,
    first_engine, pad_mask, padding, prepare, Engine, Next,
};

fn picture(w: usize, h: usize) -> Rgb8 {
    let mut img = Rgb8::new(w, h);
    for i in 0..img.data.len() {
        img.data[i] = (i + 1) as u8;
    }
    img
}

fn mask_with(w: usize, h: usize, holes: &[usize]) -> Gray8 {
    let mut data = vec![0u8; w * h];
    for p in holes {
        data[*p] = 200;
    }
    Gray8 { width: w, height: h, data }
}

#[test]
fn padding_reaches_the_next_multiple() {
    assert_eq!(padding(0), 0);
    assert_eq!(padding(1), 7);
    assert_eq!(padding(7), 1);
    assert_eq!(padding(8), 0);
    assert_eq!(padding(513), 7);
    for n in 0..100usize {
        assert_eq!((n + padding(n)) % 8, 0);
        assert!(padding(n) < 8);
    }
}

#[test]
fn mask_of_another_size_is_refused() {
    let img = picture(3, 2);
    assert!(check_sizes(&img, &mask_with(3, 2, &[])).is_ok());
    assert_eq!(
        check_sizes(&img, &mask_with(2, 3, &[])).err().unwrap(),
        "mask is 2x3 but image is 3x2"
    );
    assert_eq!(
        prepare(&img, &mask_with(10, 2, &[])).unwrap().err().unwrap(),
        "mask is 10x2 but image is 3x2"
    );
}

#[test]
fn input_blacks_out_holes_and_marks_them() {
    let img = picture(2, 1);
    let mask = mask_with(2, 1, &[1]);
    let input = build_input(&img, &mask, 0, 0);
    assert_eq!(input, vec![1, 0, 2, 0, 3, 0, 0, 255]);
}

#[test]
fn what_lies_under_holes_does_not_count() {
    let (a, mut b) = (picture(5, 3), picture(5, 3));
    let mask = mask_with(5, 3, &[0, 7, 14]);
    let mut other = mask_with(5, 3, &[0, 7, 14]);
    for (k, p) in [0, 7, 14].into_iter().enumerate() {
        other.data[p] = 1 + k as u8;
        for c in 0..3 {
            b.data[p * 3 + c] = 250 - (k * 3 + c) as u8;
        }
    }
    assert_ne!(a.data, b.data);
    assert_eq!(build_input(&a, &mask, 5, 3), build_input(&b, &other, 5, 3));
    let network: Vec<u8> = (0..192).collect();
    let (x, y) = (composite(&a, &mask, &network, 5, 3), composite(&b, &other, &network, 5, 3));
    assert_eq!(x.data, y.data);
    // A pixel outside the holes does count.
    b.data[3] = 99;
    assert_ne!(build_input(&a, &mask, 5, 3), build_input(&b, &other, 5, 3));
}

#[test]
fn input_is_padded_by_reflection() {
    let img = picture(2, 2);
    let mask = mask_with(2, 2, &[0]);
    let input = build_input(&img, &mask, 1, 1);
    // Rows 0, 1, 0 and columns 0, 1, 0 of the image.
    assert_eq!(&input[..9], &[0, 4, 0, 7, 10, 7, 0, 4, 0]);
    assert_eq!(&input[27..], &[255, 0, 255, 0, 0, 0, 255, 0, 255]);
    assert_eq!(input.len(), 36);
}

#[test]
fn mask_is_padded_by_reflection() {
    let mask = mask_with(3, 1, &[1]);
    assert_eq!(pad_mask(&mask, 0, 2), vec![0, 200, 0, 200, 0]);
    assert_eq!(pad_mask(&mask, 1, 0), vec![0, 200, 0, 0, 200, 0]);
}

#[test]
fn composite_keeps_what_the_mask_does_not_mark() {
    let img = picture(2, 2);
    let mask = mask_with(2, 2, &[2]);
    // Three planes of 2x3.
    let network: Vec<u8> = (100..118).collect();
    let out = composite(&img, &mask, &network, 0, 1);
    assert_eq!((out.width, out.height), (2, 2));
    assert_eq!(out.data, vec![1, 2, 3, 4, 5, 6, 103, 109, 115, 10, 11, 12]);
}

#[test]
fn prepared_extents_are_multiples() {
    let img = picture(5, 9);
    let mask = mask_with(5, 9, &[7]);
    let p = prepare(&img, &mask).unwrap().unwrap();
    assert_eq!((p.height, p.width, p.pad_h, p.pad_w), (16, 8, 7, 3));
    assert_eq!(p.input.len(), 4 * 16 * 8);
    let network = vec![77u8; 3 * 16 * 8];
    let out = finish(&img, &mask, &p, &network).unwrap();
    for i in 0..out.data.len() {
        let want = if i / 3 == 7 { 77 } else { img.data[i] };
        assert_eq!(out.data[i], want);
    }
}

#[test]
fn short_network_output_is_noticed() {
    let img = picture(8, 8);
    let mask = mask_with(8, 8, &[63]);
    let p = prepare(&img, &mask).unwrap().unwrap();
    assert!(finish(&img, &mask, &p, &vec![0u8; 191]).is_none());
    assert!(finish(&img, &mask, &p, &vec![0u8; 192]).is_some());
    let clear = mask_with(8, 8, &[]);
    assert_eq!(finish(&img, &clear, &p, &Vec::new()).unwrap().data, img.data);
}

#[test]
fn images_without_pixels_stay_empty() {
    for (w, h) in [(0, 0), (3, 0), (0, 9)] {
        let (img, mask) = (picture(w, h), mask_with(w, h, &[]));
        let p = prepare(&img, &mask).unwrap().unwrap();
        assert_eq!((p.width, p.height), (w + padding(w), h + padding(h)));
        assert!(p.input.is_empty());
        assert!(pad_mask(&mask, p.pad_h, p.pad_w).is_empty());
        let out = finish(&img, &mask, &p, &Vec::new()).unwrap();
        assert_eq!((out.width, out.height), (w, h));
        assert!(out.data.is_empty());
    }
}

#[test]
fn engines_are_tried_in_order() {
    assert_eq!(first_engine(true), Engine::Cpu);
    assert_eq!(first_engine(false), Engine::Gpu);
    assert_eq!(after_gpu_failure(false, "no device").unwrap(), Engine::Cpu);
    assert_eq!(
        after_gpu_failure(true, "no device").err().unwrap(),
        "gpu inference failed: no device\n(--cpu runs the CPU engine instead)"
    );
    assert_eq!(cpu_failure("too slow"), "cpu inference failed: too slow");
}

#[test]
fn empty_images_have_an_empty_input() {
    assert!(build_input(&picture(0, 0), &mask_with(0, 0, &[]), 0, 0).is_empty());
    assert!(build_input(&picture(3, 0), &mask_with(3, 0, &[]), 0, 5).is_empty());
}

fn run_with(
    force_cpu: bool,
    force_gpu: bool,
    gpu: &Result<Vec<u8>, String>,
    cpu: &Result<Vec<u8>, String>,
) -> Result<Vec<u8>, String> {
    let mut engine = first_engine(force_cpu);
    loop {
        let result = if engine == Engine::Gpu { gpu.clone() } else { cpu.clone() };
        match after_engine(force_gpu, engine, result) {
            Next::Done(out) => return Ok(out),
            Next::Failed(e) => return Err(e),
            Next::Try(next, _) => engine = next,
        }
    }
}

#[test]
fn gpu_failure_ends_as_the_cpu_run_does() {
    let gpu = Err("no device".to_string());
    for cpu in [Ok(vec![1u8, 2]), Err("no memory".to_string())] {
        assert_eq!(run_with(false, false, &gpu, &cpu), run_with(true, false, &gpu, &cpu));
        assert_eq!(
            run_with(false, true, &gpu, &cpu).err().unwrap(),
            "gpu inference failed: no device\n(--cpu runs the CPU engine instead)"
        );
    }
    assert_eq!(
        run_with(true, false, &gpu, &Err("no memory".to_string())).err().unwrap(),
        "cpu inference failed: no memory"
    );
    assert_eq!(run_with(false, false, &Ok(vec![7]), &gpu), Ok(vec![7]));
}
