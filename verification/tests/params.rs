use streaming_test::params::{
    custom_instance_params, try_custom_instance_params, ParamField, ParamsError, TestCaseParams,
};

#[test]
fn serde_test() {
    let params =
        "log=false|log_id=12|max_concurrent_send=4|max_size_block=false|segment_length=1|sim_time=600|video_bitrate=6000000|network_bandwidth=10000000";

    let values = TestCaseParams {
        log: false,
        log_id: 12,
        max_concurrent_send: 4,
        max_size_block: false,
        segment_length: 1,
        sim_time: 600,
        video_bitrate: 6_000_000,
        network_bandwidth: 10_000_000,
    };

    assert_eq!(values, custom_instance_params(&params))
}

const FULL: &str = "log=true|log_id=3|max_concurrent_send=2|max_size_block=true|segment_length=4|sim_time=60|video_bitrate=3000000|network_bandwidth=5000000";

#[test]
fn params_in_any_order() {
    let text = "network_bandwidth=5000000|video_bitrate=3000000|sim_time=60|segment_length=4|max_size_block=true|max_concurrent_send=2|log_id=3|log=true";
    assert_eq!(custom_instance_params(text), custom_instance_params(FULL));
    assert!(custom_instance_params(FULL).log);
    assert!(custom_instance_params(FULL).max_size_block);
    assert_eq!(custom_instance_params(FULL).segment_length, 4);
}

#[test]
fn params_last_item_wins() {
    let text = format!("{}|log_id=7|log_id=9", FULL);
    assert_eq!(custom_instance_params(&text).log_id, 9);
}

#[test]
fn params_items_without_value_are_ignored() {
    let text = format!("junk|{}||=", FULL);
    assert_eq!(custom_instance_params(&text), custom_instance_params(FULL));
}

#[test]
fn params_value_stops_at_second_equals() {
    let text = format!("{}|sim_time=77=88", FULL);
    assert_eq!(custom_instance_params(&text).sim_time, 77);
}

#[test]
fn params_plus_sign_accepted() {
    let text = format!("{}|sim_time=+42", FULL);
    assert_eq!(custom_instance_params(&text).sim_time, 42);
}

#[test]
fn params_missing_field() {
    let text = "log=true|log_id=3|max_concurrent_send=2|max_size_block=true|segment_length=4|video_bitrate=3000000|network_bandwidth=5000000";
    assert_eq!(try_custom_instance_params(text), Err(ParamsError::Missing(ParamField::SimTime)));
    assert_eq!(try_custom_instance_params(""), Err(ParamsError::Missing(ParamField::Log)));
}

#[test]
fn params_invalid_bool() {
    let text = format!("{}|log=True", FULL);
    assert_eq!(try_custom_instance_params(&text), Err(ParamsError::Invalid(ParamField::Log)));
}

#[test]
fn params_invalid_integer() {
    let text = format!("{}|log_id=-1", FULL);
    assert_eq!(try_custom_instance_params(&text), Err(ParamsError::Invalid(ParamField::LogId)));
    let text = format!("{}|video_bitrate=", FULL);
    assert_eq!(try_custom_instance_params(&text), Err(ParamsError::Invalid(ParamField::VideoBitrate)));
    let text = format!("{}|video_bitrate=+", FULL);
    assert_eq!(try_custom_instance_params(&text), Err(ParamsError::Invalid(ParamField::VideoBitrate)));
    let text = format!("{}|network_bandwidth=12a", FULL);
    assert_eq!(try_custom_instance_params(&text), Err(ParamsError::Invalid(ParamField::NetworkBandwidth)));
}

#[test]
fn params_integer_overflow() {
    let text = format!("{}|sim_time=99999999999999999999999", FULL);
    assert_eq!(try_custom_instance_params(&text), Err(ParamsError::Invalid(ParamField::SimTime)));
    let max = format!("{}|sim_time={}", FULL, usize::MAX);
    assert_eq!(custom_instance_params(&max).sim_time, usize::MAX);
}

#[test]
fn params_first_error_in_order() {
    let text = "log_id=x|max_size_block=maybe";
    assert_eq!(try_custom_instance_params(text), Err(ParamsError::Missing(ParamField::Log)));
    let text = "log=false|log_id=x|max_size_block=maybe";
    assert_eq!(try_custom_instance_params(text), Err(ParamsError::Invalid(ParamField::LogId)));
}

#[test]
fn unknown_items_are_ignored() {
    let junk = "|junk||extra=x|note=a=b";
    let after = format!("{}|{}", FULL, junk);
    let before = format!("{}|{}", junk, FULL);
    assert_eq!(try_custom_instance_params(&after), try_custom_instance_params(FULL));
    assert_eq!(try_custom_instance_params(&before), try_custom_instance_params(FULL));
    assert_eq!(custom_instance_params(&after), custom_instance_params(FULL));
}
