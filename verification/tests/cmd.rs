use rust_tools::cmd::run::uses_shell_operators;

#[test]
fn test_uses_shell_operators() {
    assert!(uses_shell_operators("git branch | grep x"));
    assert!(uses_shell_operators("echo hi > out.txt"));
    assert!(uses_shell_operators("cat < in.txt"));
    assert!(uses_shell_operators("sleep 1 &"));
    assert!(!uses_shell_operators("git log --oneline"));
    assert!(!uses_shell_operators(""));
}
