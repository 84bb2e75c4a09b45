use waypipe_core::options::{
    get_rand_tag, locate_openssh_cmd_hostname, rand_tag_from_bytes, SshArgsError, VSockConfig,
    VSockSpecError, VMADDR_CID_HOST,
};

fn args(list: &[&str]) -> Vec<Vec<u8>> {
    list.iter().map(|s| s.as_bytes().to_vec()).collect()
}

#[test]
fn test_ssh_parsing() {
    let x: &[(&[&str], usize, bool)] = &[
        (&["-tlfoo", "host", "command"], 2, true),
        (&["-t", "-l", "foo", "host", "command"], 3, true),
        (&["host"], 0, false),
        (&["host", "-t"], 0, false),
        (&["-T", "--", "host"], 2, false),
        (&["-T", "-t", "--", "host"], 3, true),
    ];
    for entry in x {
        let r = locate_openssh_cmd_hostname(&args(entry.0));
        assert!(r == Ok((entry.1, entry.2)));
    }
}

#[test]
fn ssh_arguments_without_host_are_refused() {
    assert_eq!(locate_openssh_cmd_hostname(&args(&["-"])), Err(SshArgsError::SingleDash));
    assert_eq!(locate_openssh_cmd_hostname(&args(&[])), Err(SshArgsError::NoHostname));
    assert_eq!(locate_openssh_cmd_hostname(&args(&["-l"])), Err(SshArgsError::NoHostname));
    assert_eq!(locate_openssh_cmd_hostname(&args(&["-l", "user"])), Err(SshArgsError::NoHostname));
    assert_eq!(locate_openssh_cmd_hostname(&args(&["--", "-x"])), Err(SshArgsError::NoHostname));
    assert_eq!(locate_openssh_cmd_hostname(&args(&["-tT", "h"])), Ok((1, false)));
}

#[test]
fn vsock_specifications_parse() {
    let c = VSockConfig::parse(b"5").unwrap();
    assert_eq!((c.to_host, c.cid, c.port), (false, VMADDR_CID_HOST, 5));
    let c = VSockConfig::parse(b"s3:7").unwrap();
    assert_eq!((c.to_host, c.cid, c.port), (true, 3, 7));
    let c = VSockConfig::parse(b"+3:+4294967295").unwrap();
    assert_eq!((c.to_host, c.cid, c.port), (false, 3, 4294967295));
    let c: VSockConfig = "17:2".parse().unwrap();
    assert_eq!((c.to_host, c.cid, c.port), (false, 17, 2));
    for bad in [&b""[..], b"x:7", b"4294967296", b"3:", b":4", b"+", b"s:1", b"1:2:3", b"-1"] {
        assert_eq!(VSockConfig::parse(bad), Err(VSockSpecError::Malformed));
    }
}

#[test]
fn vsock_text_parses_as_its_bytes() {
    for text in ["s3:9", "9", "x:7", "", "s:1", "4294967295:0", "1:2:3"] {
        let parsed: Result<VSockConfig, VSockSpecError> = text.parse();
        let c = VSockConfig::parse(text.as_bytes());
        match (parsed, c) {
            (Ok(a), Ok(b)) => assert_eq!((a.to_host, a.cid, a.port), (b.to_host, b.cid, b.port)),
            (Err(a), Err(b)) => assert_eq!(a, b),
            _ => panic!("text and bytes parse differently: {}", text),
        }
    }
    let c: VSockConfig = "s3:9".parse().unwrap();
    assert_eq!((c.to_host, c.cid, c.port), (true, 3, 9));
    assert_eq!("s:1".parse::<VSockConfig>().map(|c| c.port), Err(VSockSpecError::Malformed));
}

#[test]
fn vsock_specifications_print_and_parse_back() {
    let cases = [
        VSockConfig { to_host: false, cid: VMADDR_CID_HOST, port: 1234 },
        VSockConfig { to_host: true, cid: VMADDR_CID_HOST, port: 0 },
        VSockConfig { to_host: false, cid: 3, port: 4294967295 },
    ];
    let texts: [&[u8]; 3] = [b"1234", b"s2:0", b"3:4294967295"];
    for (c, t) in cases.iter().zip(texts.iter()) {
        assert_eq!(&c.display_bytes()[..], *t);
        assert_eq!(VSockConfig::parse(&c.display_bytes()), Ok(*c));
    }
}

#[test]
fn tags_are_base62_digits() {
    assert_eq!(&rand_tag_from_bytes(&[0; 16]), b"aaaaaaaaaa");
    let mut b = [0u8; 16];
    b[0] = 61;
    assert_eq!(&rand_tag_from_bytes(&b), b"9aaaaaaaaa");
    b[0] = 62;
    assert_eq!(&rand_tag_from_bytes(&b), b"abaaaaaaaa");
    b[0] = 27;
    assert_eq!(&rand_tag_from_bytes(&b), b"Baaaaaaaaa");
    let tag = rand_tag_from_bytes(&[0xff; 16]);
    assert!(tag.iter().all(|c| c.is_ascii_alphanumeric()));
}

#[test]
fn random_tags_are_alphanumeric() {
    let tag = get_rand_tag().unwrap();
    assert_eq!(tag.len(), 10);
    assert!(tag.iter().all(|c| c.is_ascii_alphanumeric()));
}

use waypipe_core::options::{build_connection_command, parse_i32, ConnectionOptions, SocketSpec};

fn options() -> ConnectionOptions {
    ConnectionOptions {
        debug: false,
        no_gpu: false,
        compression: b"lz4".to_vec(),
        video: b"h264".to_vec(),
        video_enabled: false,
        threads: 0,
        title_prefix: Vec::new(),
        drm_node: None,
        debug_store_video: None,
        test_skip_vulkan: false,
        test_no_timeline_export: false,
        test_no_binary_semaphore_import: false,
    }
}

fn strings(args: &[Vec<u8>]) -> Vec<String> {
    args.iter().map(|a| String::from_utf8(a.clone()).unwrap()).collect()
}

#[test]
fn connection_commands() {
    let unix = SocketSpec::Unix(b"/tmp/w.sock".to_vec());
    let args = build_connection_command(&unix, &options(), true, false);
    assert_eq!(strings(&args), vec!["-s", "/tmp/w.sock", "--threads", "0", "-c", "lz4", "client-conn"]);

    let mut o = options();
    o.debug = true;
    o.no_gpu = true;
    o.threads = 12;
    o.title_prefix = b"[x] ".to_vec();
    o.video_enabled = true;
    o.drm_node = Some(b"/dev/dri/renderD128".to_vec());
    o.debug_store_video = Some(b"/tmp/v".to_vec());
    o.test_skip_vulkan = true;
    o.test_no_timeline_export = true;
    o.test_no_binary_semaphore_import = true;
    let vsock = SocketSpec::VSock(VSockConfig { to_host: true, cid: 3, port: 7 });
    let args = build_connection_command(&vsock, &o, false, true);
    assert_eq!(
        strings(&args),
        vec![
            "-s", "s3:7", "--vsock", "-d", "-n", "--threads", "12", "-c", "lz4", "--title-prefix", "[x] ",
            "--video=h264", "--drm-node", "/dev/dri/renderD128", "--anti-staircase", "--test-store-video",
            "/tmp/v", "--test-skip-vulkan", "--test-no-timeline-export", "--test-no-binary-semaphore-import",
            "server-conn",
        ]
    );
}

#[test]
fn signed_numbers() {
    assert_eq!(parse_i32(b"17"), Some(17));
    assert_eq!(parse_i32(b"+17"), Some(17));
    assert_eq!(parse_i32(b"-2147483648"), Some(i32::MIN));
    assert_eq!(parse_i32(b"2147483647"), Some(i32::MAX));
    assert_eq!(parse_i32(b"2147483648"), None);
    assert_eq!(parse_i32(b"-2147483649"), None);
    assert_eq!(parse_i32(b"-"), None);
    assert_eq!(parse_i32(b"-+1"), None);
    assert_eq!(parse_i32(b""), None);
    assert_eq!(parse_i32(b"1a"), None);
}

#[test]
fn random_tags_differ() {
    let a = get_rand_tag().unwrap();
    let b = get_rand_tag().unwrap();
    assert_ne!(a, b);
    assert_ne!(&a, b"aaaaaaaaaa");
}

use waypipe_core::options::{x_abstract_socket_path, x_lock_contents, x_lock_file_name, x_socket_name};

#[test]
fn x_display_names() {
    assert_eq!(&x_lock_contents(1234)[..], b"      1234\n");
    assert_eq!(&x_lock_contents(4294967295)[..], b"4294967295\n");
    assert_eq!(&x_lock_contents(0)[..], b"         0\n");
    assert_eq!(&x_lock_file_name(7)[..], b".X7-lock");
    assert_eq!(&x_socket_name(254)[..], b"X254");
    assert_eq!(&x_abstract_socket_path(0)[..], b"/tmp/.X11-unix/X0");
}
