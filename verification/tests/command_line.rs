use lama_inpaint::args::{index_path, means_stream, parse_args, weight_places, Args, Place, Request};

fn read(args: &[&str]) -> Result<Request, String> {
    let v: Vec<String> = args.iter().map(|a| a.to_string()).collect();
    parse_args(&v)
}

fn run_args(args: &[&str]) -> Args {
    match read(args) {
        Ok(Request::Run(a)) => a,
        _ => panic!("not a run"),
    }
}

fn refused(args: &[&str]) -> String {
    match read(args) {
        Err(e) => e,
        Ok(_) => panic!("accepted"),
    }
}

#[test]
fn everything_can_be_given() {
    let a = run_args(&[
        "--image", "a.png", "--mask", "m.png", "--output", "o.png", "--weights", "w.bin",
        "--index", "w.json", "--gpu",
    ]);
    assert_eq!((a.image.as_str(), a.mask.as_str(), a.output.as_str()), ("a.png", "m.png", "o.png"));
    assert_eq!(a.weights.as_deref(), Some("w.bin"));
    assert_eq!(a.index.as_deref(), Some("w.json"));
    assert!(a.force_gpu && !a.force_cpu);
}

#[test]
fn the_last_value_counts() {
    let a = run_args(&[
        "--output", "x", "--image", "a", "--image", "b", "--mask", "--image", "--cpu", "--cpu",
    ]);
    assert_eq!(a.image, "b");
    assert_eq!(a.mask, "--image");
    assert_eq!(a.output, "x");
    assert!(a.weights.is_none() && a.index.is_none());
    assert!(a.force_cpu && !a.force_gpu);
}

#[test]
fn missing_values_are_named() {
    assert_eq!(refused(&["--image"]), "--image needs a value");
    assert_eq!(refused(&["--image", "a", "--mask"]), "--mask needs a value");
    assert_eq!(refused(&["--output"]), "--output needs a value");
    assert_eq!(refused(&["--weights"]), "--weights needs a value");
    assert_eq!(refused(&["--index"]), "--index needs a value");
}

#[test]
fn required_options_are_named() {
    assert_eq!(refused(&[]), "--image is required");
    assert_eq!(refused(&["--image", "a"]), "--mask is required");
    assert_eq!(refused(&["--image", "a", "--mask", "m"]), "--output is required");
}

#[test]
fn unknown_arguments_are_refused() {
    assert_eq!(refused(&["--what"]), "unknown argument --what");
    assert_eq!(refused(&["--image", "a", "b", "--mask"]), "unknown argument b");
}

#[test]
fn one_stream_cannot_be_two_inputs() {
    assert_eq!(
        refused(&["--image", "-", "--mask", "-", "--output", "o"]),
        "--image and --mask cannot both be '-' (stdin has only one stream)"
    );
    let a = run_args(&["--image", "-", "--mask", "m", "--output", "-"]);
    assert!(means_stream(&a.image) && !means_stream(&a.mask) && means_stream(&a.output));
}

#[test]
fn help_wins_over_what_follows() {
    assert!(matches!(read(&["-h", "--nonsense"]), Ok(Request::Help)));
    assert!(matches!(read(&["--image", "a", "--help", "--mask"]), Ok(Request::Help)));
    assert_eq!(refused(&["--nonsense", "-h"]), "unknown argument --nonsense");
    assert_eq!(refused(&["--image", "-h"]), "--mask is required");
}

#[test]
fn weights_are_looked_for_upwards() {
    let p = weight_places(1);
    let want = vec![
        Place { up: 0, in_models: false },
        Place { up: 0, in_models: true },
        Place { up: 0, in_models: false },
        Place { up: 0, in_models: true },
        Place { up: 1, in_models: false },
        Place { up: 1, in_models: true },
    ];
    assert_eq!(p, want);
    let far = weight_places(100);
    assert_eq!(far.len(), 14);
    assert_eq!(far[13], Place { up: 5, in_models: true });
}

#[test]
fn index_lies_beside_the_weights() {
    let a = run_args(&[
        "--image", "a.png", "--mask", "m.png", "--output", "o.png", "--weights", "w/x.bin",
    ]);
    assert_eq!(a.weights.as_deref(), Some("w/x.bin"));
    assert_eq!(a.index.as_deref(), Some("w/x.json"));
    assert!(!a.force_cpu && !a.force_gpu);
    let a = run_args(&["--image", "a", "--mask", "m", "--output", "o", "--index", "i"]);
    assert_eq!(a.index.as_deref(), Some("i"));
    assert!(a.weights.is_none());
}

#[test]
fn index_paths_are_those_of_the_standard_library() {
    let paths = [
        "", ".", "..", "/", "//", "./", "/.", "../", "a", "a/", "a//", "a/.", "a/./", ".a", ".a.b",
        "a.", "a..", "...", "a.b", "a.b.c", "d.e/a", "d.e/a.b", "d/..", "d/../a.b", "/a.b", "./a.b",
        "d/.a", "d/...", "a.b/", "a.b/.", "a.b//./", "d/./a.b", "é/ü.bin", ".//.", "d/.a.", "/..",
        "a/b.c/..", "x.json", "-",
    ];
    for p in paths {
        let mut want = std::path::PathBuf::from(p);
        want.set_extension("json");
        assert_eq!(index_path(p), want.to_str().unwrap(), "{p:?}");
    }
}
