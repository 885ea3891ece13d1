use devctrl::dispatch::{add_script, broadcast_plan, collect_outcome, EventCallbacks};

fn engine() -> rhai::Engine {
    rhai::Engine::new()
}

fn ctx() -> rhai::Dynamic {
    rhai::Dynamic::UNIT
}

fn invoke(cb: &EventCallbacks, eng: &rhai::Engine, channel: &str) -> Result<(), String> {
    let device = Some("550e8400-e29b-41d4-a716-446655440000".to_string());
    let data: rhai::Array = vec![rhai::Dynamic::from(1.5f64)];
    cb.on_msg(eng, &ctx(), &device, &channel.to_string(), &data)
}

#[test]
fn add_script_loads_hooks_and_allow_list() {
    let eng = engine();
    let mut scripts: Vec<EventCallbacks> = Vec::new();
    add_script(&mut scripts, &eng, "#{ on_msg: |ctx, dev, ch, data| {}, only_channels: [\"a\", \"b\"] }")
        .expect("script compiles");
    assert_eq!(scripts.len(), 1);
    assert!(scripts[0].on_msg.is_some());
    assert_eq!(scripts[0].only_listen, Some(vec!["a".to_string(), "b".to_string()]));
    assert!(scripts[0].wants_channel(&"a".to_string()));
    assert!(scripts[0].wants_channel(&"b".to_string()));
    assert!(!scripts[0].wants_channel(&"z".to_string()));
}

#[test]
fn add_script_compile_error_leaves_table_unchanged() {
    let eng = engine();
    let mut scripts: Vec<EventCallbacks> = Vec::new();
    assert!(add_script(&mut scripts, &eng, "][ this is not a script").is_err());
    assert_eq!(scripts.len(), 0);
}

#[test]
fn script_without_hook_is_never_invoked() {
    let eng = engine();
    let mut scripts: Vec<EventCallbacks> = Vec::new();
    add_script(&mut scripts, &eng, "#{ only_channels: [\"c\"] }").expect("script compiles");
    assert!(!scripts[0].wants_channel(&"c".to_string()));
    // invoking it anyway reports success: its match is vacuous
    assert!(invoke(&scripts[0], &eng, "c").is_ok());
}

#[test]
fn broadcast_invokes_exactly_the_matching_listeners() {
    let eng = engine();
    let mut scripts: Vec<EventCallbacks> = Vec::new();
    // listener 0: empty allow-list (all channels), fails loudly when run
    add_script(&mut scripts, &eng, "#{ on_msg: |ctx, dev, ch, data| { throw \"ran-0\" } }").unwrap();
    // listener 1: subscribes to "c", fails loudly when run
    add_script(
        &mut scripts,
        &eng,
        "#{ on_msg: |ctx, dev, ch, data| { throw \"ran-1\" }, only_channels: [\"c\"] }",
    )
    .unwrap();
    // listener 2: subscribes to another channel only
    add_script(
        &mut scripts,
        &eng,
        "#{ on_msg: |ctx, dev, ch, data| { throw \"ran-2\" }, only_channels: [\"other\"] }",
    )
    .unwrap();

    let plan = broadcast_plan(&scripts, &"c".to_string());
    assert_eq!(plan, vec![0usize, 1usize]);

    let mut outcomes: Vec<Result<(), String>> = Vec::new();
    for &i in &plan {
        outcomes.push(invoke(&scripts[i], &eng, "c"));
    }
    // the errors prove each planned listener's hook ran exactly once
    assert!(outcomes[0].as_ref().unwrap_err().contains("ran-0"));
    assert!(outcomes[1].as_ref().unwrap_err().contains("ran-1"));
    // the excluded listener is not invoked by a broadcast on "c";
    // even called directly it declines
    assert!(invoke(&scripts[2], &eng, "c").is_ok());
}

#[test]
fn one_failing_listener_does_not_stop_the_others() {
    let eng = engine();
    let mut scripts: Vec<EventCallbacks> = Vec::new();
    add_script(&mut scripts, &eng, "#{ on_msg: |ctx, dev, ch, data| { throw \"first\" } }").unwrap();
    add_script(&mut scripts, &eng, "#{ on_msg: |ctx, dev, ch, data| { throw \"second\" } }").unwrap();

    let plan = broadcast_plan(&scripts, &"c".to_string());
    assert_eq!(plan, vec![0usize, 1usize]);
    let outcomes: Vec<Result<(), String>> =
        plan.iter().map(|&i| invoke(&scripts[i], &eng, "c")).collect();

    // the second listener ran although the first failed
    assert!(outcomes[1].as_ref().unwrap_err().contains("second"));
    // the aggregate outcome carries the first failure
    let agg = collect_outcome(&outcomes);
    assert!(agg.unwrap_err().contains("first"));
}

#[test]
fn collect_outcome_aggregates() {
    assert!(collect_outcome(&vec![]).is_ok());
    assert!(collect_outcome(&vec![Ok(()), Ok(())]).is_ok());
    let r = collect_outcome(&vec![Ok(()), Err("a".to_string()), Err("b".to_string())]);
    assert_eq!(r.unwrap_err(), "a");
}

#[test]
fn successful_hook_reports_ok() {
    let eng = engine();
    let mut scripts: Vec<EventCallbacks> = Vec::new();
    add_script(&mut scripts, &eng, "#{ on_msg: |ctx, dev, ch, data| {} }").unwrap();
    assert!(invoke(&scripts[0], &eng, "c").is_ok());
}
