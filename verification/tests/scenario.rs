use binary_mock::mock::BinaryMock;
use binary_mock::script::{is_valid_name, script, script_path};
use binary_mock::search_path::split_paths;
use std::io::{Read, Write};

fn staged(data: &[u8]) -> tempfile::NamedTempFile {
    let file = tempfile::NamedTempFile::new().unwrap();
    file.reopen().unwrap().write_all(data).unwrap();
    file
}

fn content(file: &tempfile::NamedTempFile) -> Vec<u8> {
    let mut bytes = Vec::new();
    file.reopen().unwrap().read_to_end(&mut bytes).unwrap();
    bytes
}

#[test]
fn test_temperature_output() {
    let stdout_data = b"Temperature: 30 Celsius\n";
    let stderr_data = b"";
    let rc = 0;

    assert!(is_valid_name(b"mock_temp"));
    let bin_dir = tempfile::tempdir().unwrap();
    let stdout = staged(stdout_data);
    let stderr = staged(stderr_data);
    let text = script(
        stdout.path().to_str().unwrap().as_bytes(),
        stderr.path().to_str().unwrap().as_bytes(),
        rc,
    )
    .unwrap();
    let text = String::from_utf8(text).unwrap();

    // The script is the interpreter line, two copies and the exit.
    let lines: Vec<&str> = text.split('\n').collect();
    assert_eq!(lines.len(), 4);
    assert_eq!(lines[0], "#!/bin/sh -e");
    let copied_out = lines[1]
        .strip_prefix("/bin/cat <'")
        .and_then(|rest| rest.strip_suffix("'"));
    let copied_err = lines[2]
        .strip_prefix("/bin/cat <'")
        .and_then(|rest| rest.strip_suffix("' >&2"));
    assert_eq!(copied_out, stdout.path().to_str());
    assert_eq!(copied_err, stderr.path().to_str());

    // Verify stdout
    assert_eq!(
        String::from_utf8_lossy(&content(&stdout)),
        "Temperature: 30 Celsius\n"
    );

    // Verify stderr is empty
    assert!(content(&stderr).is_empty());

    // Verify return code
    let status = lines[3].strip_prefix("exit ").unwrap();
    assert_eq!(status.parse::<i32>().ok(), Some(rc as i32));

    // The name resolves to the script: its directory is searched first.
    let dir = bin_dir.path().to_str().unwrap().as_bytes();
    assert_eq!(
        String::from_utf8(script_path(dir, b"mock_temp").unwrap()).unwrap(),
        bin_dir.path().join("mock_temp").to_str().unwrap()
    );
    let before = b"/usr/local/bin:/usr/bin:/bin";
    let (mut mock, value) = BinaryMock::new(Some(before), dir, dir).unwrap();
    assert_eq!(split_paths(&value)[0], dir.to_vec());

    // And no longer once the mock is released.
    let after = mock
        .release(Some(&value), &split_paths(&value))
        .unwrap()
        .unwrap();
    assert_eq!(after, before.to_vec());
}

#[test]
fn staged_output_is_kept_to_the_byte() {
    let mut large = Vec::new();
    for i in 0..300_000u32 {
        large.push((i % 251) as u8);
    }
    for data in [&b""[..], &[0u8, 255, 10, 13, 0, 128][..], &large[..]] {
        let stdout = staged(data);
        let stderr = staged(data);
        let text = script(
            stdout.path().to_str().unwrap().as_bytes(),
            stderr.path().to_str().unwrap().as_bytes(),
            3,
        )
        .unwrap();
        let text = String::from_utf8(text).unwrap();
        assert_eq!(
            text,
            format!(
                "#!/bin/sh -e\n/bin/cat <'{}'\n/bin/cat <'{}' >&2\nexit 3",
                stdout.path().display(),
                stderr.path().display()
            )
        );
        assert_eq!(content(&stdout), data);
        assert_eq!(content(&stderr), data);
    }
}
