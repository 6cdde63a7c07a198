use gitauthors::errors::Error;

#[test]
fn each_failure_renders_its_own_line() {
    assert_eq!(
        Error::ResolutionFailed("rate limited".to_string()).message(),
        "resolution failed: rate limited"
    );
    assert_eq!(
        Error::UnknownAccountType("Bot".to_string()).message(),
        "Unknown type \"Bot\""
    );
    assert_eq!(
        Error::CloneFailed {
            url: "https://host/broken.git".to_string(),
            diagnostic: "remote hung up".to_string(),
        }
        .message(),
        "git clone failed for https://host/broken.git: remote hung up"
    );
    assert_eq!(
        Error::ExtractionFailed("unreadable object store".to_string()).message(),
        "extraction failed: unreadable object store"
    );
}
