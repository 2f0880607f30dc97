use nvidia_wormhole::hardware::{
    count_fans, detect_gpus, fan_control_assignment, fan_speed_assignment, fans_query_command,
    get_gpu_usage, get_temp, parse_gpu_name, set_fan_speed, temp_query_command,
    usage_query_command,
};

#[test]
fn test_fan_command_structure() {
    let gpu_id = 0;
    let fan_id = 1;
    let speed = 75;

    let assignment1 = fan_control_assignment(gpu_id);
    let assignment2 = fan_speed_assignment(fan_id, speed);

    assert_eq!(assignment1, "[gpu:0]/GPUFanControlState=1");
    assert_eq!(assignment2, "[fan:1]/GPUTargetFanSpeed=75");
}

#[test]
fn set_fan_speed_builds_full_command() {
    let (program, args) = set_fan_speed(2, 10, 100);
    assert_eq!(program, "sudo");
    assert_eq!(
        args,
        vec![
            "nvidia-settings".to_string(),
            "-a".to_string(),
            "[gpu:2]/GPUFanControlState=1".to_string(),
            "-a".to_string(),
            "[fan:10]/GPUTargetFanSpeed=100".to_string(),
        ]
    );
}

#[test]
fn query_commands_match_the_tools() {
    let (program, args) = temp_query_command(0);
    assert_eq!(program, "nvidia-settings");
    assert_eq!(
        args,
        vec!["-q".to_string(), "[gpu:0]/GPUCoreTemp".to_string(), "-t".to_string()]
    );

    let (program, args) = usage_query_command(3);
    assert_eq!(program, "nvidia-smi");
    assert_eq!(
        args,
        vec![
            "--query-gpu=utilization.gpu".to_string(),
            "--format=csv,noheader,nounits".to_string(),
            "-i".to_string(),
            "3".to_string(),
        ]
    );

    let (program, args) = fans_query_command();
    assert_eq!(program, "nvidia-settings");
    assert_eq!(args, vec!["-q".to_string(), "fans".to_string()]);
}

#[test]
fn get_temp_parses_trimmed_integers() {
    assert_eq!(get_temp(b"45"), Some(45));
    assert_eq!(get_temp(b"  45\n"), Some(45));
    assert_eq!(get_temp(b"\t+45\r\n"), Some(45));
    assert_eq!(get_temp(b"0"), Some(0));
    assert_eq!(get_temp(b"007"), Some(7));
    assert_eq!(get_temp(b"4294967295"), Some(u32::MAX));
}

#[test]
fn get_temp_rejects_garbage() {
    assert_eq!(get_temp(b""), None);
    assert_eq!(get_temp(b"   "), None);
    assert_eq!(get_temp(b"+"), None);
    assert_eq!(get_temp(b"-45"), None);
    assert_eq!(get_temp(b"45C"), None);
    assert_eq!(get_temp(b"4 5"), None);
    assert_eq!(get_temp(b"4294967296"), None);
    assert_eq!(get_temp(b"99999999999999999999"), None);
}

#[test]
fn get_gpu_usage_parses_smi_output() {
    assert_eq!(get_gpu_usage(b"15\n"), Some(15));
    assert_eq!(get_gpu_usage(b"100"), Some(100));
    assert_eq!(get_gpu_usage(b"N/A"), None);
}

#[test]
fn count_fans_takes_the_largest_id() {
    let listing = b"\
Attributes queryable via host:0.0\n\
  [fan:0] (Fan 0)\n\
  [fan:1] (Fan 1)\n";
    assert_eq!(count_fans(listing), 2);

    assert_eq!(count_fans(b"[fan:3]"), 4);
    assert_eq!(count_fans(b"[fan:1] [fan:0]"), 2);
    assert_eq!(count_fans(b"[fan:00005]"), 6);
}

#[test]
fn count_fans_without_tags_is_zero() {
    assert_eq!(count_fans(b""), 0);
    assert_eq!(count_fans(b"no fans here"), 0);
    assert_eq!(count_fans(b"[fan:]"), 0);
    assert_eq!(count_fans(b"[fan:12"), 0);
    assert_eq!(count_fans(b"[gpu:0]"), 0);
}

#[test]
fn count_fans_ignores_oversized_ids() {
    assert_eq!(count_fans(b"[fan:2147483648]"), 0);
    assert_eq!(count_fans(b"[fan:2147483647]"), 2147483648);
    assert_eq!(count_fans(b"[fan:99999999999] [fan:2]"), 3);
}

#[test]
fn parse_gpu_name_captures_the_trailing_group() {
    let listing = b"  [0] my_machine:0[gpu:0] (NVIDIA GeForce RTX 3080)\n";
    let name = parse_gpu_name(listing, 0).expect("name expected");
    assert_eq!(name, b"NVIDIA GeForce RTX 3080".to_vec());
}

#[test]
fn parse_gpu_name_picks_the_right_gpu_line() {
    let listing = b"\
2 GPUs on my_machine:0\n\
\n\
    [0] my_machine:0[gpu:0] (NVIDIA RTX A4000)\n\
    [1] my_machine:0[gpu:1] (NVIDIA GeForce GT 1030)\n";
    assert_eq!(
        parse_gpu_name(listing, 0).expect("gpu 0"),
        b"NVIDIA RTX A4000".to_vec()
    );
    assert_eq!(
        parse_gpu_name(listing, 1).expect("gpu 1"),
        b"NVIDIA GeForce GT 1030".to_vec()
    );
}

#[test]
fn parse_gpu_name_without_a_match_is_none() {
    assert_eq!(parse_gpu_name(b"", 0), None);
    assert_eq!(parse_gpu_name(b"[gpu:0] no parens", 0), None);
    assert_eq!(parse_gpu_name(b"[gpu:1] (Some GPU)", 0), None);
    // the parenthesized group must close the line
    assert_eq!(parse_gpu_name(b"[gpu:0] (Some GPU) trailing", 0), None);
    // an empty group is no capture
    assert_eq!(parse_gpu_name(b"[gpu:0] ()", 0), None);
}

#[test]
fn detect_gpus_reports_one_generic_gpu() {
    let gpus = detect_gpus(3);
    assert_eq!(gpus.len(), 1);
    assert_eq!(gpus[0].id, 0);
    assert_eq!(gpus[0].name, "Generic NVIDIA GPU");
    assert_eq!(gpus[0].fans, 3);
}
