use rname::rename::Rename;

#[test]
fn rename_sequence_test() {
    // Successful renames
    {
        let result = Rename::rename_sequence("/x/y/z", "/a/b/c");

        match result {
            Ok(res) => {
                assert_eq!(res.len(), 3);

                assert_eq!(
                    res,
                    vec![
                        Rename::new("/x/y/z", "/x/y/c"),
                        Rename::new("/x/y", "/x/b"),
                        Rename::new("/x", "/a"),
                    ]
                );
            }
            Err(_) => assert!(false),
        }
    }
    {
        let result = Rename::rename_sequence("/x", "/a");

        match result {
            Ok(res) => {
                assert_eq!(res.len(), 1);
                assert_eq!(res[0], Rename::new("/x", "/a"));
            }
            Err(_) => assert!(false),
        }
    }

    // Following ones should fail due to them not being compatible paths
    {
        let result = Rename::rename_sequence("/A/B/C", "/X/Y");
        assert!(result.is_err());
    }
    {
        let result = Rename::rename_sequence("/X/Y", "/A/B/C");
        assert!(result.is_err());
    }

    // This case should also return empty vector of renames since we don't need to rename anything here
    {
        let result = Rename::rename_sequence("/x", "/x");
        assert!(result.is_ok());
        assert_eq!(result.unwrap(), vec![]);
    }
}
