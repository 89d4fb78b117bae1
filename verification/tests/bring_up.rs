use lama_inpaint::fft::{plan_failure, plan_note, PlanCache, PlanKey, C2R, R2C};
use lama_inpaint::pool::{block_bytes, Pool, POOL_CAP};
use lama_inpaint::setup::{
    device_note, driver_version, dump_step, module_failure, unavailable_reason, Device, Event,
    Outcome, Setup, Stage,
};

const VERSION: &str = "NVRM version: NVIDIA UNIX x86_64 Kernel Module  535.216.01  Tue Sep\nGCC version: x";

#[test]
fn module_version_is_the_eighth_word() {
    assert_eq!(driver_version(VERSION).unwrap(), "535.216.01");
    assert!(driver_version("").is_none());
    assert!(driver_version("a b c d e f g h i").is_none());
    assert!(driver_version("Kernel b c d e f g").is_none());
    assert_eq!(driver_version("Kernel b c d e f g h").unwrap(), "h");
    assert!(driver_version("first line\na Kernel c d e f g h").is_none());
}

#[test]
fn unavailable_driver_is_explained() {
    assert_eq!(
        unavailable_reason(100, &None),
        "CUDA is not available in this process (cuInit error 100)."
    );
    assert_eq!(
        unavailable_reason(3, &Some("1.2".to_string())),
        "CUDA is not available in this process (cuInit error 3).\n  nvidia kernel module: 1.2"
    );
    let text = unavailable_reason(804, &None);
    assert_eq!(text.lines().count(), 5);
    assert!(text.ends_with("    LD_LIBRARY_PATH=/home/jacob/nvidia-535.216.01"));
}

#[test]
fn device_is_described_as_far_as_it_is_known() {
    let archs = "6.1, 7.5, 8.0, 8.6, 8.9, 9.0";
    assert_eq!(device_note(&None), format!(" (embedded kernels target compute {archs})"));
    let d = Device { name: Some("GTX".to_string()), capability: Some((5, 2)) };
    assert_eq!(
        module_failure(209, &Some(d)),
        format!(
            "cuModuleLoadData failed: 209 on \"GTX\" (compute capability 5.2); the embedded kernel image targets compute {archs}"
        )
    );
    let d = Device { name: None, capability: None };
    assert_eq!(
        device_note(&Some(d)),
        format!(" on \"unknown device\"; the embedded kernel image targets compute {archs}")
    );
}

fn succeed(stage: Stage) -> Event {
    match stage {
        Stage::Open(_) | Stage::Resolve(_) => Event::Linked,
        _ => Event::Returned(0),
    }
}

fn at(n: usize) -> Setup {
    let mut s = Setup::new();
    for _ in 0..n {
        let e = succeed(s.stage().unwrap());
        assert!(matches!(s.advance(e), Outcome::Going));
    }
    s
}

fn failed(mut s: Setup, e: Event) -> String {
    match s.advance(e) {
        Outcome::Failed(m) => m,
        _ => panic!("did not fail"),
    }
}

#[test]
fn bring_up_takes_every_stage() {
    let mut s = Setup::new();
    let mut n = 0;
    while let Some(stage) = s.stage() {
        assert!(matches!(s.advance(succeed(stage)), Outcome::Going));
        n += 1;
    }
    assert_eq!(n, 44);
}

#[test]
fn libraries_are_tried_under_two_names() {
    let mut s = Setup::new();
    assert_eq!(s.attempt(), 0);
    assert!(matches!(s.advance(Event::NotLinked(None)), Outcome::Going));
    assert_eq!(s.attempt(), 1);
    assert_eq!(
        failed(s, Event::NotLinked(Some("no such file".to_string()))),
        "libcuda.so: no such file"
    );
    let mut s = at(5);
    assert!(matches!(s.advance(Event::NotLinked(None)), Outcome::Going));
    assert_eq!(failed(s, Event::NotLinked(None)), "libcufft.so: unknown dlopen/dlsym error");
}

#[test]
fn missing_symbols_are_named() {
    assert_eq!(failed(at(1), Event::NotLinked(None)), "cuInit: unknown dlopen/dlsym error");
    assert_eq!(
        failed(at(20), Event::NotLinked(Some("gone".to_string()))),
        "cublasSgemm_v2: gone"
    );
}

#[test]
fn failing_calls_are_named() {
    assert!(matches!(at(2).advance(Event::Returned(804)), Outcome::Unavailable(804)));
    assert!(matches!(at(11).advance(Event::Returned(200)), Outcome::NotLoaded(200)));
    assert_eq!(failed(at(7), Event::Returned(1)), "cublasCreate_v2 failed: 1");
    assert_eq!(failed(at(9), Event::Returned(2)), "cudaStreamCreate failed: 2");
    assert_eq!(failed(at(26), Event::Returned(500)), "cuModuleGetFunction(k_im2col) failed: 500");
    let mut s = at(25);
    assert_eq!(s.stage(), Some(Stage::SetStreams));
    assert!(matches!(s.advance(Event::Returned(9)), Outcome::Going));
}

#[test]
fn dump_steps_are_numbers() {
    assert_eq!(dump_step("12"), Some(12));
    assert_eq!(dump_step("+3"), Some(3));
    assert_eq!(dump_step(""), None);
    assert_eq!(dump_step("-1"), None);
    assert_eq!(dump_step("99999999999999999999999"), None);
}

#[test]
fn plans_describe_each_side() {
    let k = PlanKey { h: 4, w: 6, batch: 3, inverse: false };
    assert!(k.representable());
    let g = k.geometry();
    assert_eq!((g.n.rows, g.n.cols), (4, 6));
    assert_eq!((g.inembed.rows, g.inembed.cols, g.idist), (4, 6, 24));
    assert_eq!((g.onembed.rows, g.onembed.cols, g.odist), (4, 4, 16));
    assert_eq!((g.kind, g.batch), (R2C, 3));
    let b = PlanKey { inverse: true, ..k }.geometry();
    assert_eq!((b.inembed, b.idist, b.onembed, b.odist, b.kind), (
        g.onembed, g.odist, g.inembed, g.idist, C2R,
    ));
    assert_eq!((R2C, C2R), (42, 44));
    let huge = PlanKey { h: 1 << 20, w: 1 << 20, batch: 1, inverse: false };
    assert!(!huge.representable());
}

#[test]
fn plan_failures_show_the_geometry() {
    let k = PlanKey { h: 4, w: 6, batch: 3, inverse: true };
    let g = k.geometry();
    assert_eq!(
        plan_failure(5, &k, &g),
        "cufftPlanMany failed: 5 (h=4 w=6 batch=3 inverse=true n=[4 6] inembed=[4 4] idist=16 onembed=[4 6] odist=24 kind=44)"
    );
    assert_eq!(
        plan_note(&k, &g),
        "cufftPlanMany(rank=2, n=[4 6], inembed=[4 4], istride=1, idist=16, onembed=[4 6], ostride=1, odist=24, kind=44, batch=3)"
    );
}

#[test]
fn plans_are_made_once() {
    let mut c = PlanCache::new();
    let k = PlanKey { h: 4, w: 6, batch: 3, inverse: true };
    assert_eq!(c.find(&k), None);
    c.insert(k, 77);
    c.insert(PlanKey { batch: 4, ..k }, 78);
    assert_eq!(c.find(&k), Some(77));
    assert_eq!(c.find(&PlanKey { batch: 4, ..k }), Some(78));
    assert_eq!(c.find(&PlanKey { inverse: false, ..k }), None);
}

#[test]
fn pool_hands_out_what_came_last() {
    let mut p = Pool::new(true);
    assert_eq!(p.acquire(64), None);
    p.miss();
    assert!(p.release(1, 64));
    assert!(p.release(2, 64));
    assert!(p.release(3, 128));
    assert_eq!(p.cached(), 256);
    assert_eq!(p.acquire(64), Some(2));
    assert_eq!(p.acquire(64), Some(1));
    assert_eq!(p.acquire(64), None);
    assert_eq!(p.acquire(128), Some(3));
    assert_eq!((p.hits(), p.misses(), p.cached()), (3, 1, 0));
}

#[test]
fn pool_is_capped() {
    let mut p = Pool::new(true);
    assert!(!p.release(1, POOL_CAP + 1));
    assert!(p.release(2, POOL_CAP));
    assert!(!p.release(3, 1));
    assert_eq!(p.cached(), 768 << 20);
    assert_eq!(p.acquire(POOL_CAP), Some(2));
    assert!(p.release(3, 1));
}

#[test]
fn disabled_pool_keeps_nothing() {
    let mut p = Pool::new(false);
    assert!(!p.release(1, 4));
    assert_eq!(p.acquire(4), None);
    assert_eq!(p.cached(), 0);
}

#[test]
fn blocks_are_never_empty() {
    assert_eq!(block_bytes(0), 4);
    assert_eq!(block_bytes(1), 4);
    assert_eq!(block_bytes(10), 40);
}

#[test]
fn plan_is_made_once_and_failures_are_not_kept() {
    let mut cache = PlanCache::new();
    let key = PlanKey { h: 4, w: 6, batch: 2, inverse: false };
    let back = PlanKey { inverse: true, ..key };
    let g = cache.wanted(&key).unwrap();
    let want = plan_failure(5, &key, &g);
    assert_eq!(cache.answer(key, 5, 77).err().unwrap(), want);
    assert!(cache.find(&key).is_none());
    assert!(cache.wanted(&key).is_some());
    assert_eq!(cache.answer(key, 0, 78).unwrap(), 78);
    assert!(cache.wanted(&key).is_none());
    assert_eq!(cache.answer(key, 9, 79).unwrap(), 78);
    assert!(cache.wanted(&back).is_some());
    assert_eq!(cache.answer(back, 0, 80).unwrap(), 80);
    assert_eq!(cache.find(&key), Some(78));
}

#[test]
fn pool_keeps_sizes_apart() {
    let mut pool = Pool::new(true);
    assert!(pool.release(1, 64));
    let held = pool.cached();
    assert!(pool.release(2, 128));
    assert_eq!(pool.acquire(32), None);
    assert_eq!(pool.acquire(128), Some(2));
    assert_eq!(pool.cached(), held);
    assert_eq!(pool.acquire(64), Some(1));
}
