use tuiman::release::{binary_name, parts, repo, tag};

#[test]
fn package_parts() {
    assert_eq!(parts("o/r/v1.2/r_1.2_linux_x86_64.tar.gz"), Some(("o/r", "v1.2", "r_1.2_linux_x86_64.tar.gz")));
    assert_eq!(parts("o/r/release/1.0/r-linux"), Some(("o/r", "release/1.0", "r-linux")));
    assert_eq!(repo("o/r/v1/a"), "o/r");
    assert_eq!(repo("o/r"), "o/r");
    assert_eq!(tag("o/r/v1/a"), "v1");
    for bad in ["o/r", "o/r/v1", "o/../v1/a", "o/r/v1/..", "o/r//a"] {
        assert_eq!(parts(bad), None, "{bad}");
    }
}

#[test]
fn bare_binary_names() {
    assert_eq!(binary_name("lazygit-linux-amd64"), Some("lazygit"));
    assert_eq!(binary_name("ctop-0.7.7-linux-amd64"), Some("ctop"));
    assert_eq!(binary_name("gh-dash_v4.26.0_linux-amd64"), Some("gh-dash"));
    assert_eq!(binary_name("ec2-instance-selector-linux-amd64"), Some("ec2-instance-selector"));
    assert_eq!(binary_name("mal-cli-v0.2.1-linux-musl-x86_64"), Some("mal-cli"));
    assert_eq!(binary_name("go-life_linux_amd64"), Some("go-life"));
    assert_eq!(binary_name("grv_v0.3.2_linux64"), Some("grv"));
    assert_eq!(binary_name("plain"), Some("plain"));
    assert_eq!(binary_name("v1.0-linux"), None);
}

#[test]
fn tag_of_something_else_is_itself() {
    assert_eq!(tag("brew-formula"), "brew-formula");
    assert_eq!(binary_name("Tool-Darwin-ARM64"), Some("Tool"));
    assert_eq!(binary_name("a-"), Some("a"));
}
