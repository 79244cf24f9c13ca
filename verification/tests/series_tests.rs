use toolbox::series::{
    check_lengths, check_shape, check_shape_at, collect_input_files, dimension_position, hours_to_timestamp_string,
    seconds_timestamp,
    internal_seconds_to_timestamp_string, no_data_error, timestamp_order,
};

fn owned(v: &[&str]) -> Vec<String> {
    v.iter().map(|s| s.to_string()).collect()
}

#[test]
fn timestamps_count_from_1900() {
    assert_eq!(hours_to_timestamp_string(0), "1900-01-01 00:00:00");
    assert_eq!(hours_to_timestamp_string(3600), "1900-01-01 01:00:00");
    assert_eq!(hours_to_timestamp_string(90061), "1900-01-02 01:01:01");
    assert_eq!(internal_seconds_to_timestamp_string(3661), "1900-01-01 01:01:01");
    assert_eq!(internal_seconds_to_timestamp_string(-1), "1899-12-31 23:59:59");
}

#[test]
fn netcdf_inputs_are_collected() {
    let walked = owned(&["d/a.nc", "d/b.txt", "d/sub/c.nc"]);
    assert_eq!(collect_input_files("d", true, true, false, &walked).unwrap(), owned(&["d/a.nc", "d/sub/c.nc"]));
    assert_eq!(collect_input_files("d", true, true, false, &owned(&["d/x"])).unwrap_err(), "No .nc files found in directory: d");
    assert_eq!(collect_input_files("f.nc", true, false, true, &vec![]).unwrap(), owned(&["f.nc"]));
    assert_eq!(collect_input_files("f.csv", true, false, true, &vec![]).unwrap_err(), "Input file is not a .nc file: f.csv");
    assert_eq!(collect_input_files("gone", false, false, false, &vec![]).unwrap_err(), "Input path does not exist: gone");
    assert_eq!(collect_input_files("odd", true, false, false, &vec![]).unwrap_err(), "Input path is not a valid file or directory: odd");
}

#[test]
fn variable_shapes_are_checked() {
    assert_eq!(
        check_shape("wind", "f.nc", &vec![10, 5], 0, 0).unwrap(),
        "Variable 'wind' in f.nc has insufficient dimensions (expected >=3, got 2)"
    );
    assert_eq!(
        check_shape("wind", "f.nc", &vec![10, 5, 8], 5, 0).unwrap(),
        "Latitude index 5 out of bounds for f.nc (lat_dim_len: 5)"
    );
    assert_eq!(
        check_shape("wind", "f.nc", &vec![10, 5, 8], 4, 9).unwrap(),
        "Longitude index 9 out of bounds for f.nc (lon_dim_len: 8)"
    );
    assert!(check_shape("wind", "f.nc", &vec![10, 5, 8], 4, 7).is_none());
    assert_eq!(check_lengths("f.nc", 3, 4).unwrap(), "Mismatch in data points/timestamps in f.nc (3 vs 4)");
    assert!(check_lengths("f.nc", 4, 4).is_none());
    assert!(no_data_error().starts_with("No data extracted."));
}

#[test]
fn samples_are_ordered_by_time() {
    let keys = vec![30i64, -5, 30, 10];
    let order = timestamp_order(&keys);
    let sorted: Vec<i64> = order.iter().map(|&i| keys[i]).collect();
    assert_eq!(sorted, vec![-5, 10, 30, 30]);
    let mut seen = order.clone();
    seen.sort();
    assert_eq!(seen, vec![0, 1, 2, 3]);
}

#[test]
fn latitude_and_longitude_are_found_by_name() {
    let names = owned(&["lon", "time", "Latitude"]);
    assert_eq!(dimension_position(&names, "lat", "latitude", 1), 2);
    assert_eq!(dimension_position(&names, "lon", "longitude", 2), 0);
    let plain = owned(&["t", "y", "x"]);
    assert_eq!(dimension_position(&plain, "lat", "latitude", 1), 1);
    assert_eq!(dimension_position(&plain, "lon", "longitude", 2), 2);
    let dims = vec![5, 8, 10];
    assert_eq!(check_shape_at("t2m", "f.nc", &dims, 2, 0, 9, 4), None);
    assert_eq!(
        check_shape_at("t2m", "f.nc", &dims, 2, 0, 9, 5),
        Some("Longitude index 5 out of bounds for f.nc (lon_dim_len: 5)".to_string())
    );
    assert_eq!(
        check_shape_at("t2m", "f.nc", &dims, 7, 0, 0, 0),
        Some("Latitude index 0 out of bounds for f.nc (lat_dim_len: 0)".to_string())
    );
}

#[test]
fn timestamps_reach_to_the_ends_of_the_calendar() {
    assert_eq!(seconds_timestamp(8_212_475_865_599), Some("+262142-12-31 23:59:59".to_string()));
    assert_eq!(seconds_timestamp(8_212_475_865_600), None);
    assert_eq!(seconds_timestamp(-8_332_392_240_000), Some("-262143-01-01 00:00:00".to_string()));
    assert_eq!(seconds_timestamp(-8_332_392_240_001), None);
    assert_eq!(seconds_timestamp(0), Some("1900-01-01 00:00:00".to_string()));
}
