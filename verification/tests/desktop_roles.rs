use rar_os::desktop_roles::{receives, send_target};

#[test]
fn exact_least_authority_matrix() {
    let expected = [
        [(2, 3), (4, 4), (5, 5), (6, 6)].as_slice(),
        &[(4, 4), (6, 6)],
        &[(1, 0)],
        &[],
        &[(2, 3), (3, 1)],
        &[(1, 0), (2, 3)],
        &[(2, 3), (3, 1)],
        &[],
    ];
    for role in 0..16 {
        for slot in 0..16 {
            let want = expected.get(role).and_then(|pairs| pairs.iter().find(|&&(s, _)| s == slot).map(|&(_, t)| t));
            assert_eq!(send_target(role, slot), want);
        }
    }
    for role in 0..16 {
        assert_eq!(receives(role), [0, 1, 3, 4, 5, 6].contains(&role));
    }
}
