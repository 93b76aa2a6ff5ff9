use range_splitter::config::Config;

fn defaults() -> Config {
    Config { block_size: 1048576, parallelism: 5, read_chunk_size: 65536 }
}

#[test]
fn config_defaults_without_field() {
    assert_eq!(Config::new(None), defaults());
    assert_eq!(Config::new(Some(&b""[..])), defaults());
}

#[test]
fn config_takes_overrides() {
    let c = Config::new(Some(&b"b=2097152,p=3,r=4096"[..]));
    assert_eq!(c, Config { block_size: 2097152, parallelism: 3, read_chunk_size: 4096 });
}

#[test]
fn config_bounds_are_closed() {
    let c = Config::new(Some(&b"b=1048576,p=1,r=1024"[..]));
    assert_eq!(c, Config { block_size: 1048576, parallelism: 1, read_chunk_size: 1024 });
    let c = Config::new(Some(&b"b=52428800,p=10,r=1048576"[..]));
    assert_eq!(c, Config { block_size: 52428800, parallelism: 10, read_chunk_size: 1048576 });
}

#[test]
fn config_ignores_values_out_of_bounds() {
    assert_eq!(Config::new(Some(&b"b=1048575"[..])), defaults());
    assert_eq!(Config::new(Some(&b"b=52428801"[..])), defaults());
    assert_eq!(Config::new(Some(&b"p=0"[..])), defaults());
    assert_eq!(Config::new(Some(&b"p=11"[..])), defaults());
    assert_eq!(Config::new(Some(&b"r=1023"[..])), defaults());
    assert_eq!(Config::new(Some(&b"r=1048577"[..])), defaults());
}

#[test]
fn config_ignores_what_it_cannot_read() {
    assert_eq!(Config::new(Some(&b"b=abc,p=,r"[..])), defaults());
    assert_eq!(Config::new(Some(&b"x=5,,=,b"[..])), defaults());
    assert_eq!(Config::new(Some(&b" p=3"[..])), defaults());
    assert_eq!(Config::new(Some(&b"p=3 "[..])), defaults());
    assert_eq!(Config::new(Some(&b"p=3\x80"[..])), defaults());
}

#[test]
fn config_later_override_wins() {
    let c = Config::new(Some(&b"p=3,p=4,p=99"[..]));
    assert_eq!(c.parallelism, 4);
    let c = Config::new(Some(&b"p=0,p=7"[..]));
    assert_eq!(c.parallelism, 7);
}

#[test]
fn config_with_setting_applies_one() {
    let c = defaults().with_setting(b"r=2048");
    assert_eq!(c, Config { block_size: 1048576, parallelism: 5, read_chunk_size: 2048 });
    assert_eq!(defaults().with_setting(b"r=2048,p=2"), defaults());
    assert_eq!(defaults().with_setting(b"p=+2").parallelism, 2);
}
