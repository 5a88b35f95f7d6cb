use climate_grid::temperature::{AverageErr, Temperature};
use climate_grid::time::Time;

fn present(day: u32, millicelsius: i32) -> (Time, Option<Temperature>) {
    (Time::new(day), Some(Temperature::new(millicelsius)))
}

fn absent(day: u32) -> (Time, Option<Temperature>) {
    (Time::new(day), None)
}

#[test]
fn average_of_three_present_samples() {
    let series = vec![present(1, 10_000), present(2, 20_000), present(3, 30_000)];
    assert_eq!(Temperature::average(&series), Ok(Temperature::new(20_000)));
}

#[test]
fn average_fails_on_the_single_absent_sample() {
    let series = vec![present(1, 10_000), present(2, 12_000), absent(45), present(4, 30_000), present(5, -3)];
    assert_eq!(Temperature::average(&series), Err(AverageErr::MissingData(Time::new(45))));
    let series = vec![absent(7)];
    assert_eq!(Temperature::average(&series), Err(AverageErr::MissingData(Time::new(7))));
    let series = vec![present(1, 1), absent(9)];
    assert_eq!(Temperature::average(&series), Err(AverageErr::MissingData(Time::new(9))));
}

#[test]
fn average_reports_the_first_absent_sample_in_series_order() {
    let series = vec![present(1, 5), absent(30), present(2, 6), absent(10)];
    assert_eq!(Temperature::average(&series), Err(AverageErr::MissingData(Time::new(30))));
}

#[test]
fn average_of_empty_series_is_an_error() {
    assert_eq!(Temperature::average(&Vec::new()), Err(AverageErr::EmptySeries));
}

#[test]
fn average_rounds_down() {
    let series = vec![present(1, 1), present(2, 2)];
    assert_eq!(Temperature::average(&series), Ok(Temperature::new(1)));
    let series = vec![present(1, -1), present(2, -2)];
    assert_eq!(Temperature::average(&series), Ok(Temperature::new(-2)));
}

#[test]
fn average_of_extreme_readings_does_not_overflow() {
    let series = vec![present(1, i32::MAX), present(2, i32::MAX), present(3, i32::MAX)];
    assert_eq!(Temperature::average(&series), Ok(Temperature::new(i32::MAX)));
    let series = vec![present(1, i32::MIN), present(2, i32::MIN)];
    assert_eq!(Temperature::average(&series), Ok(Temperature::new(i32::MIN)));
}

#[test]
fn sum_and_div() {
    let temps = vec![Temperature::new(i32::MAX), Temperature::new(i32::MAX), Temperature::new(-5)];
    let total = Temperature::sum(&temps);
    assert_eq!(total, 2 * i32::MAX as i128 - 5);
    assert_eq!(Temperature::sum(&Vec::new()), 0);
    assert_eq!(Temperature::div(total, 3), Temperature::new(1_431_655_763));
    assert_eq!(Temperature::div(-7, 2), Temperature::new(-4));
    assert_eq!(Temperature::div(60_000, 3), Temperature::new(20_000));
}
