use gitauthors::errors::Error;
use gitauthors::urls::{account_name, RepoSource};

#[test]
fn github_url_re_matching() {
    for url in [
        "https://github.com/JorianWoltjer",
        "https://github.com/JorianWoltjer?tab=repositories",
        "https://github.com/JorianWoltjer#",
        "https://github.com/JorianWoltjer#hash",
        "https://github.com/JorianWoltjer?tab=overview&from=2022-12-01&to=2022-12-31",
        "https://github.com/JorianWoltjer?tab=overview&a=?&b=c",
        "https://github.com/orgs/JorianWoltjer",
        "https://github.com/orgs/JorianWoltjer/repositories",
        "https://github.com/orgs/JorianWoltjer/repositories/",
        "https://github.com/orgs/JorianWoltjer/repositories/x",
    ] {
        let user = account_name(url);
        assert_eq!(user, Some("JorianWoltjer".to_string()));
    }
}

#[test]
fn github_url_re_not_matching() {
    for url in [
        "https://example.com",
        "https://github.com",
        "https://github.com/",
        "https://github.com/JorianWoltjer/jorianwoltjer.com",
    ] {
        let user = account_name(url);
        assert_eq!(user, None);
    }
}

#[test]
fn non_account_identifier_passes_through() {
    let inputs = [
        "git@host:me/repo.git",
        "https://example.com/me/repo.git",
        "https://github.com/me/repo",
        "plainword",
        "",
    ];
    for url in inputs {
        match RepoSource::from_url(url, "") {
            Ok(RepoSource::GitRepo(u)) => assert_eq!(u, url),
            _ => panic!("expected a direct repository for {url}"),
        }
    }
}

#[test]
fn account_type_decides_variant() {
    let url = "https://github.com/JorianWoltjer";
    match RepoSource::from_url(url, "User") {
        Ok(RepoSource::GithubUser(n)) => assert_eq!(n, "JorianWoltjer"),
        _ => panic!("expected a user"),
    }
    match RepoSource::from_url(url, "Organization") {
        Ok(RepoSource::GithubOrg(n)) => assert_eq!(n, "JorianWoltjer"),
        _ => panic!("expected an organization"),
    }
    match RepoSource::from_url(url, "Bot") {
        Err(Error::UnknownAccountType(t)) => {
            assert_eq!(t, "Bot");
            assert_eq!(Error::UnknownAccountType(t).message(), "Unknown type \"Bot\"");
        }
        _ => panic!("expected an unknown-account-type failure"),
    }
}

#[test]
fn www_and_http_prefixes_capture_the_same_name() {
    for url in [
        "http://github.com/SomeName",
        "https://www.github.com/SomeName?x=1",
        "http://www.github.com/SomeName#frag",
    ] {
        assert_eq!(account_name(url), Some("SomeName".to_string()));
    }
}

#[test]
fn bare_orgs_segment_is_a_name_of_its_own() {
    assert_eq!(
        account_name("https://github.com/orgs"),
        Some("orgs".to_string())
    );
    assert_eq!(account_name("https://github.com/orgs/"), None);
}

#[test]
fn describe_names_the_source() {
    let direct = RepoSource::GitRepo("https://x/y.git".to_string());
    assert_eq!(direct.describe(), "Git Repository at https://x/y.git");
    let user = RepoSource::GithubUser("me".to_string());
    assert_eq!(user.describe(), "GitHub User \"me\"");
    let org = RepoSource::GithubOrg("them".to_string());
    assert_eq!(org.describe(), "GitHub Organization \"them\"");
}

#[test]
fn describe_escapes_the_quoted_name() {
    let user = RepoSource::GithubUser("a\"b\\c".to_string());
    assert_eq!(user.describe(), "GitHub User \"a\\\"b\\\\c\"");
}
