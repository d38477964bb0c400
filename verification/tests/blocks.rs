use statusbar::blocks::{
    battery, battery_fragment, clock, clock_fragment, cpu, cpu_fragment, disk, i3, load_fragment,
    memory_fragment, mount_fragment, outputs_of, workspace_fragment, Charge, Load, Memory, Mount,
    Workspace, MIN_TOTAL,
};
use statusbar::format::Fraction;
use statusbar::Block;

fn workspace(name: &str, output: &str, visible: bool) -> Workspace {
    Workspace { name: String::from(name), output: String::from(output), visible }
}

fn mount(mounted_on: &str, total: u64, avail: u64) -> Mount {
    Mount { mounted_on: String::from(mounted_on), total, avail }
}

#[test]
fn clock_writes_date_and_time() {
    let r = clock(0);
    assert_eq!(r.block, Block::Clock);
    assert_eq!(r.msg, "%{B#2c292d}%{F#fdf9f3}1970-01-01 00:00:00%{F-}%{B-}");
    let r = clock(1_431_648_000 + 12 * 3600 + 34 * 60 + 56);
    assert_eq!(r.msg, "%{B#2c292d}%{F#fdf9f3}2015-05-15 12:34:56%{F-}%{B-}");
    let r = clock(-1);
    assert_eq!(r.msg, "%{B#2c292d}%{F#fdf9f3}1969-12-31 23:59:59%{F-}%{B-}");
}

#[test]
fn clock_beyond_the_calendar_is_empty() {
    assert_eq!(clock(i64::MAX).msg, "%{B#2c292d}%{F#fdf9f3}%{F-}%{B-}");
    assert_eq!(clock(i64::MIN).msg, "%{B#2c292d}%{F#fdf9f3}%{F-}%{B-}");
}

#[test]
fn clock_fragment_styles_the_text() {
    assert_eq!(
        clock_fragment(String::from("[12:00:00]")),
        "%{B#2c292d}%{F#fdf9f3}[12:00:00]%{F-}%{B-}"
    );
}

#[test]
fn battery_fragment_is_a_gauge() {
    // " < 73% 04:12 " has 13 characters; 73 hundredths of them are 9.49.
    let text = battery_fragment(Fraction::new(73, 100), false, "04:12");
    assert_eq!(text, "%{B#a9dc76}%{F#2c292d} < 73% 04%{R}:12 %{R}%{F-}%{B-}");
    let text = battery_fragment(Fraction::new(73, 100), true, "04:12");
    assert_eq!(text, "%{B#a9dc76}%{F#2c292d} > 73% 04%{R}:12 %{R}%{F-}%{B-}");
}

#[test]
fn battery_colour_follows_the_level() {
    let at = |num: u64| battery_fragment(Fraction::new(num, 1000), false, "");
    assert!(at(401).starts_with("%{B#a9dc76}"));
    assert!(at(400).starts_with("%{B#fc9867}"));
    assert!(at(201).starts_with("%{B#fc9867}"));
    assert!(at(200).starts_with("%{B#ff6188}"));
    assert!(at(0).starts_with("%{B#ff6188}"));
    assert!(at(1000).starts_with("%{B#a9dc76}"));
}

#[test]
fn battery_adds_the_remaining_time() {
    let now = 10 * 3600 + 15 * 60;
    let charge = Charge { level: Fraction::new(1, 2), remaining: 2 * 3600 + 30 * 60 + 59 };
    let r = battery(Some(charge), Some(true), now);
    assert_eq!(r.block, Block::Battery);
    // " > 50% 12:45 " has 13 characters; half of them, rounded, are 7.
    assert_eq!(r.msg, "%{B#a9dc76}%{F#2c292d} > 50% %{R}12:45 %{R}%{F-}%{B-}");
}

#[test]
fn battery_time_passes_midnight() {
    let now = 23 * 3600 + 30 * 60;
    let charge = Charge { level: Fraction::new(1, 1), remaining: 3600 };
    let r = battery(Some(charge), Some(false), now);
    assert_eq!(r.msg, "%{B#a9dc76}%{F#2c292d} < 100% 00:30 %{R}%{R}%{F-}%{B-}");
}

#[test]
fn battery_query_failure_shows_zero() {
    let now = 12 * 3600;
    let failed = battery(None, None, now);
    assert_eq!(failed.block, Block::Battery);
    assert_eq!(failed.msg, "%{B#ff6188}%{F#2c292d}%{R} < 0% 12:00 %{R}%{F-}%{B-}");
    let zero = battery(Some(Charge { level: Fraction::new(0, 1), remaining: 0 }), Some(false), now);
    assert_eq!(failed.msg, zero.msg);
    // The next tick is served as any other.
    let next = battery(Some(Charge { level: Fraction::new(1, 4), remaining: 60 }), None, now);
    assert_eq!(next.msg, "%{B#fc9867}%{F#2c292d} < %{R}25% 12:01 %{R}%{F-}%{B-}");
}

#[test]
fn battery_time_out_of_range_is_left_out() {
    let charge = Charge { level: Fraction::new(1, 1), remaining: u64::MAX };
    let r = battery(Some(charge), Some(true), i64::MAX);
    assert_eq!(r.msg, "%{B#a9dc76}%{F#2c292d} > 100%  %{R}%{R}%{F-}%{B-}");
    let r = battery(Some(charge), Some(true), 0);
    assert_eq!(r.msg, "%{B#a9dc76}%{F#2c292d} > 100%  %{R}%{R}%{F-}%{B-}");
}

#[test]
fn battery_remaining_above_i64_is_added_to_a_negative_now() {
    let remaining = (i64::MAX as u64) + 1 + 3600;
    let charge = Charge { level: Fraction::new(1, 1), remaining };
    let r = battery(Some(charge), Some(true), i64::MIN);
    assert_eq!(r.msg, "%{B#a9dc76}%{F#2c292d} > 100% 01:00 %{R}%{R}%{F-}%{B-}");
}

#[test]
fn memory_fragment_is_a_gauge() {
    let text = memory_fragment(1, 2, "8.0 GB", "16.0 GB");
    assert_eq!(text, "%{B#ab9df2}%{F#2c292d} 8.0 GB/%{R}16.0 GB %{R}%{F-}%{B-}");
}

#[test]
fn load_fragment_writes_tenths() {
    assert_eq!(load_fragment(Load { one: 5, five: 12, fifteen: 123 }), "0.5 1.2 12.3");
    assert_eq!(load_fragment(Load { one: 0, five: 10, fifteen: 4_294_967_295 }), "0.0 1.0 429496729.5");
}

#[test]
fn cpu_fragment_joins_memory_and_load() {
    assert_eq!(
        cpu_fragment("MEM", String::from("LOAD")),
        "%{B#2c292d}MEM %{F#78dce8}LOAD%{F-} %{B-}"
    );
}

#[test]
fn cpu_writes_memory_and_load() {
    let r = cpu(
        Some(Memory { total: 16_000_000_000, free: 8_000_000_000 }),
        Some(Load { one: 5, five: 12, fifteen: 123 }),
    );
    assert_eq!(r.block, Block::Cpu);
    assert_eq!(
        r.msg,
        "%{B#2c292d}%{B#ab9df2}%{F#2c292d} 8.0 GB/%{R}16.0 GB %{R}%{F-}%{B-} %{F#78dce8}0.5 1.2 12.3%{F-} %{B-}"
    );
}

#[test]
fn cpu_with_failed_queries_is_empty_inside() {
    let r = cpu(None, None);
    assert_eq!(r.msg, "%{B#2c292d} %{F#78dce8}%{F-} %{B-}");
    let r = cpu(None, Some(Load { one: 1, five: 2, fifteen: 3 }));
    assert_eq!(r.msg, "%{B#2c292d} %{F#78dce8}0.1 0.2 0.3%{F-} %{B-}");
}

#[test]
fn cpu_with_more_free_than_total_counts_nothing_used() {
    let r = cpu(Some(Memory { total: 500, free: 900 }), None);
    assert_eq!(
        r.msg,
        "%{B#2c292d}%{B#ab9df2}%{F#2c292d}%{R} 0 B/500 B %{R}%{F-}%{B-} %{F#78dce8}%{F-} %{B-}"
    );
}

#[test]
fn cpu_with_no_memory_at_all() {
    let r = cpu(Some(Memory { total: 0, free: 0 }), None);
    assert_eq!(
        r.msg,
        "%{B#2c292d}%{B#ab9df2}%{F#2c292d}%{R} 0 B/0 B %{R}%{F-}%{B-} %{F#78dce8}%{F-} %{B-}"
    );
}

#[test]
fn mount_fragment_names_the_mount() {
    assert_eq!(mount_fragment("/home", "5.0 GB"), " /home: 5.0 GB ");
}

#[test]
fn disk_lists_large_mounts() {
    let mounts = vec![
        mount("/", 100_000_000_000, 5_000_000_000),
        mount("/boot", 500_000_000, 100_000_000),
        mount("/home", 2_000_000_000_000, 1_500_000_000_000),
    ];
    let r = disk(Some(&mounts));
    assert_eq!(r.block, Block::Disk);
    assert_eq!(r.msg, "%{F#a9dc76} /: 5.0 GB  /home: 1.5 TB %{F-}");
}

#[test]
fn disk_threshold_is_inclusive() {
    assert_eq!(MIN_TOTAL, 4_000_000_000);
    let mounts = vec![mount("/a", MIN_TOTAL, 999), mount("/b", MIN_TOTAL - 1, 999)];
    assert_eq!(disk(Some(&mounts)).msg, "%{F#a9dc76} /a: 999 B %{F-}");
}

#[test]
fn disk_without_mounts_is_empty() {
    assert_eq!(disk(None).msg, "%{F#a9dc76}%{F-}");
    assert_eq!(disk(Some(&Vec::new())).msg, "%{F#a9dc76}%{F-}");
}

#[test]
fn workspace_fragment_marks_the_visible_one() {
    assert_eq!(
        workspace_fragment(&workspace("1", "eDP1", true)),
        "%{B#a9dc76}%{F#2c292d} 1 %{F-}%{B-}"
    );
    assert_eq!(
        workspace_fragment(&workspace("web", "eDP1", false)),
        "%{B#2c292d}%{F#78dce8} web %{F-}%{B-}"
    );
}

#[test]
fn outputs_come_in_order_of_first_mention() {
    let list = vec![
        workspace("1", "B", true),
        workspace("2", "A", true),
        workspace("3", "B", false),
        workspace("4", "C", false),
        workspace("5", "A", false),
    ];
    assert_eq!(outputs_of(&list), vec!["B", "A", "C"]);
    assert_eq!(outputs_of(&Vec::new()), Vec::<String>::new());
}

#[test]
fn i3_groups_workspaces_by_output() {
    let list = vec![
        workspace("1", "B", true),
        workspace("2", "A", true),
        workspace("3", "B", false),
        workspace("4", "A", false),
    ];
    let r = i3(&list);
    assert_eq!(r.block, Block::I3(0));
    let expected = [
        workspace_fragment(&list[0]),
        workspace_fragment(&list[2]),
        workspace_fragment(&list[1]),
        workspace_fragment(&list[3]),
    ]
    .concat();
    assert_eq!(r.msg, expected);
    assert_eq!(
        r.msg,
        "%{B#a9dc76}%{F#2c292d} 1 %{F-}%{B-}%{B#2c292d}%{F#78dce8} 3 %{F-}%{B-}%{B#a9dc76}%{F#2c292d} 2 %{F-}%{B-}%{B#2c292d}%{F#78dce8} 4 %{F-}%{B-}"
    );
}

#[test]
fn i3_without_workspaces_is_empty() {
    let r = i3(&Vec::new());
    assert_eq!(r.block, Block::I3(0));
    assert_eq!(r.msg, "");
}
