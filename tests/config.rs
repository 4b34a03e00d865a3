use hackerman::config::{Config, USAGE};

#[test]
fn config_takes_input_and_output() {
    let args = vec!["hackerman".to_string(), "in.asm".to_string(), "out.hack".to_string()];
    let config = Config::new(&args).ok().unwrap();
    assert_eq!(config.input, "in.asm");
    assert_eq!(config.output, "out.hack");
}

#[test]
fn config_needs_two_paths() {
    let args = vec!["hackerman".to_string(), "in.asm".to_string()];
    assert_eq!(Config::new(&args).err(), Some(USAGE));
}
