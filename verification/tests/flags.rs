use reedos_address_space::FlagBuilder;

fn bits(f: FlagBuilder) -> [bool; 6] {
    [f.read, f.write, f.execute, f.cow, f.private, f.shared]
}

#[test]
fn new_has_every_flag_off() {
    assert_eq!(bits(FlagBuilder::new()), [false; 6]);
    assert_eq!(FlagBuilder::new(), FlagBuilder::default());
}

#[test]
fn single_flag_constructors_turn_on_one_flag() {
    assert_eq!(bits(FlagBuilder::read()), [true, false, false, false, false, false]);
    assert_eq!(bits(FlagBuilder::write()), [false, true, false, false, false, false]);
    assert_eq!(bits(FlagBuilder::execute()), [false, false, true, false, false, false]);
    assert_eq!(bits(FlagBuilder::cow()), [false, false, false, true, false, false]);
    assert_eq!(bits(FlagBuilder::private()), [false, false, false, false, true, false]);
    assert_eq!(bits(FlagBuilder::shared()), [false, false, false, false, false, true]);
}

#[test]
fn toggles_flip_one_flag_and_keep_the_rest() {
    let base = FlagBuilder::write().and(FlagBuilder::shared());
    assert_eq!(bits(base.toggle_read()), [true, true, false, false, false, true]);
    assert_eq!(bits(base.toggle_write()), [false, false, false, false, false, true]);
    assert_eq!(bits(base.toggle_execute()), [false, true, true, false, false, true]);
    assert_eq!(bits(base.toggle_cow()), [false, true, false, true, false, true]);
    assert_eq!(bits(base.toggle_private()), [false, true, false, false, true, true]);
    assert_eq!(bits(base.toggle_shared()), [false, true, false, false, false, false]);
}

#[test]
fn toggling_twice_gives_the_flags_back() {
    let base = FlagBuilder::read().and(FlagBuilder::cow());
    assert_eq!(base.toggle_read().toggle_read(), base);
    assert_eq!(base.toggle_write().toggle_write(), base);
    assert_eq!(base.toggle_execute().toggle_execute(), base);
    assert_eq!(base.toggle_cow().toggle_cow(), base);
    assert_eq!(base.toggle_private().toggle_private(), base);
    assert_eq!(base.toggle_shared().toggle_shared(), base);
}

#[test]
fn and_is_the_union() {
    let read = FlagBuilder::read();
    let execute = FlagBuilder::execute();
    let both = read.and(execute);
    assert_eq!(both, FlagBuilder::new().toggle_read().toggle_execute());
    assert_eq!(bits(both), [true, false, true, false, false, false]);
    assert_eq!(both.and(read), both);
    assert_eq!(read.and(FlagBuilder::new()), read);
    assert_eq!(read.and(execute), execute.and(read));
}

#[test]
fn but_not_is_the_difference() {
    let read_execute = FlagBuilder::read().toggle_execute();
    let execute = FlagBuilder::execute();
    assert_eq!(read_execute.but_not(execute), FlagBuilder::new().toggle_read());
    assert_eq!(read_execute.but_not(read_execute), FlagBuilder::new());
    assert_eq!(read_execute.but_not(FlagBuilder::write()), read_execute);
    assert_eq!(FlagBuilder::new().but_not(read_execute), FlagBuilder::new());
    let all = FlagBuilder::read()
        .and(FlagBuilder::write())
        .and(FlagBuilder::execute())
        .and(FlagBuilder::cow())
        .and(FlagBuilder::private())
        .and(FlagBuilder::shared());
    assert_eq!(bits(all), [true; 6]);
    assert_eq!(
        bits(all.but_not(FlagBuilder::cow().and(FlagBuilder::shared()))),
        [true, true, true, false, true, false]
    );
}

#[test]
fn permits_asks_for_every_requested_capability() {
    let read = FlagBuilder::read();
    let read_write = FlagBuilder::read().and(FlagBuilder::write());
    assert!(read.permits(read));
    assert!(read.permits(FlagBuilder::new()));
    assert!(!read.permits(FlagBuilder::write()));
    assert!(!read.permits(read_write));
    assert!(read_write.permits(read));
    assert!(read_write.permits(FlagBuilder::write()));
    assert!(read_write.permits(read_write));
    assert!(!read_write.permits(FlagBuilder::execute()));
    assert!(!FlagBuilder::new().permits(FlagBuilder::shared()));
    assert!(FlagBuilder::new().permits(FlagBuilder::new()));
}

#[test]
fn flags_are_copied_and_compared_by_value() {
    let a = FlagBuilder::private();
    let b = a;
    assert_eq!(a, b);
    assert_ne!(a, FlagBuilder::shared());
    assert_eq!(a.clone(), FlagBuilder::new().toggle_private());
}
