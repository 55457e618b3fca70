use genesis::environment::{cell_index, clamp_to_grid};
use genesis::schedule::{plan_tick, TickActions};

#[test]
fn cell_index_row_major() {
    assert_eq!(cell_index(80, 60, 0, 0), Some(0));
    assert_eq!(cell_index(80, 60, 5, 2), Some(165));
    assert_eq!(cell_index(80, 60, 79, 59), Some(4799));
    assert_eq!(cell_index(80, 60, 80, 0), None);
    assert_eq!(cell_index(80, 60, 0, 60), None);
}

#[test]
fn clamp_to_grid_caps_at_last_cell() {
    assert_eq!(clamp_to_grid(5, 80), 5);
    assert_eq!(clamp_to_grid(200, 80), 79);
    assert_eq!(clamp_to_grid(3, 0), 0);
}

#[test]
fn plan_tick_schedule() {
    assert_eq!(plan_tick(0, 0, 1000), TickActions { record_metrics: true, report: false, finish: false });
    assert_eq!(plan_tick(100, 25, 1000), TickActions { record_metrics: true, report: true, finish: false });
    assert_eq!(plan_tick(101, 25, 1000), TickActions { record_metrics: false, report: false, finish: false });
    assert_eq!(plan_tick(1000, 0, 1000), TickActions { record_metrics: true, report: false, finish: true });
    assert_eq!(plan_tick(1001, 7, 1000).finish, true);
}
