use aether::telemetry::{MetricKind, Registry};

#[test]
fn counters_and_gauges_track_values() {
    let mut reg = Registry::new();
    let ticks = reg.counter("ticks_total");
    ticks.inc();
    ticks.add(4);
    assert_eq!(ticks.get(), 5);

    let loaded = reg.gauge("chunks_loaded");
    loaded.set(10);
    loaded.add(-3);
    assert_eq!(loaded.get(), 7);
}

#[test]
fn get_or_create_is_idempotent() {
    let mut reg = Registry::new();
    reg.counter("c").add(2);
    reg.counter("c").add(3);
    assert_eq!(reg.counter("c").get(), 5);
}

#[test]
fn prometheus_output_is_sorted_and_typed() {
    let mut reg = Registry::new();
    reg.counter("b_total").add(2);
    reg.gauge("a_gauge").set(-1);
    let text = reg.render_prometheus();
    assert_eq!(
        text,
        "# TYPE a_gauge gauge\na_gauge -1\n# TYPE b_total counter\nb_total 2\n"
    );
}

#[test]
fn empty_registry_renders_nothing() {
    let reg = Registry::default();
    assert_eq!(reg.render_prometheus(), "");
    assert_eq!(reg.kind_of("anything"), None);
}

#[test]
fn kind_of_reports_the_registered_kind() {
    let mut reg = Registry::new();
    reg.counter("c");
    reg.gauge("g");
    assert_eq!(reg.kind_of("c"), Some(MetricKind::Counter));
    assert_eq!(reg.kind_of("g"), Some(MetricKind::Gauge));
    assert_eq!(reg.kind_of("x"), None);
}

#[test]
fn names_render_in_byte_order() {
    let mut reg = Registry::new();
    reg.counter("zeta");
    reg.counter("Zeta");
    reg.counter("alpha");
    reg.counter("alp");
    let text = reg.render_prometheus();
    let names: Vec<&str> = text
        .lines()
        .filter(|l| !l.starts_with('#'))
        .map(|l| l.split(' ').next().unwrap())
        .collect();
    assert_eq!(names, vec!["Zeta", "alp", "alpha", "zeta"]);
}

#[test]
fn extreme_values_render_in_decimal() {
    let mut reg = Registry::new();
    reg.counter("big").add(u64::MAX);
    reg.gauge("low").set(i64::MIN);
    reg.gauge("zero");
    assert_eq!(
        reg.render_prometheus(),
        "# TYPE big counter\nbig 18446744073709551615\n# TYPE low gauge\nlow -9223372036854775808\n# TYPE zero gauge\nzero 0\n"
    );
}

#[test]
fn counter_wraps_around() {
    let mut reg = Registry::new();
    let c = reg.counter("w");
    c.add(u64::MAX);
    c.add(2);
    assert_eq!(c.get(), 1);
}
