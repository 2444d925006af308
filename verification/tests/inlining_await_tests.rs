use generators::inlining_await::{
    gen_a, gen_a_can_resume, gen_a_resume, gen_b, gen_b_can_resume, gen_b_resume, Res,
};

#[test]
fn gen_a_blocks_five_times() {
    let mut g = gen_a();
    for _ in 0..5 {
        assert!(gen_a_can_resume(&g));
        assert!(matches!(gen_a_resume(&mut g), Res::Blocked));
    }
    assert!(!gen_a_can_resume(&g));
}

#[test]
fn gen_b_blocks_on_every_allowed_resumption() {
    let mut g = gen_b();
    let mut resumes = 0;
    while gen_b_can_resume(&g) {
        assert!(matches!(gen_b_resume(&mut g), Res::Blocked));
        resumes += 1;
    }
    // One step of its own, then five of the awaited generator.
    assert_eq!(resumes, 6);
}
