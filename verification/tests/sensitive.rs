use config_kit::Sensitive;

#[test]
fn debug_and_display_redact() {
    let secret = Sensitive::new("hunter2".to_owned());
    assert_eq!(secret.to_debug_string(), "[REDACTED]");
    assert_eq!(secret.to_string(), "[REDACTED]");
    assert!(!secret.to_debug_string().contains("hunter2"));
}

#[test]
fn access_is_explicit() {
    let secret = Sensitive::from(42_u32);
    assert_eq!(*secret.expose(), 42);
    assert_eq!(secret.into_inner(), 42);
}

#[test]
fn rendering_ignores_the_secret() {
    let a = Sensitive::new(String::from("alpha"));
    let b = Sensitive::new(String::from("a much longer secret"));
    assert_eq!(a.to_string(), b.to_string());
    assert_eq!(a.to_debug_string(), b.to_debug_string());
    assert_eq!(a.expose(), "alpha");
    assert_eq!(b.into_inner(), "a much longer secret");
}
