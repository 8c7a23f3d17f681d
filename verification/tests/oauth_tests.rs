use ai_listen::oauth::{
    alipay_user, authorize_url, callback_code, check_credentials, callback_uri, get_social_auth_url, github_user, qq_user,
    social_login_or_register, wechat_user, OAuthUser, Provider,
};
use ai_listen::users::UserDatabase;

#[test]
fn authorize_links() {
    assert_eq!(
        authorize_url("github", Some("cid"), "http://127.0.0.1:5000/callback"),
        Ok("https://github.com/login/oauth/authorize?client_id=cid&redirect_uri=http://127.0.0.1:5000/callback&scope=user:email".to_string())
    );
    assert_eq!(
        authorize_url("qq", Some("q1"), "r"),
        Ok("https://graph.qq.com/oauth2.0/authorize?response_type=code&client_id=q1&redirect_uri=r&scope=get_user_info".to_string())
    );
    assert_eq!(
        authorize_url("wechat", Some("w"), "r"),
        Ok("https://open.weixin.qq.com/connect/qrconnect?appid=w&redirect_uri=r&response_type=code&scope=snsapi_login".to_string())
    );
    assert_eq!(
        authorize_url("alipay", Some("a"), "r"),
        Ok("https://openauth.alipay.com/oauth2/publicAppAuthorize.htm?app_id=a&scope=auth_user&redirect_uri=r".to_string())
    );
    assert_eq!(authorize_url("myspace", Some("x"), "r"), Err("不支持的登录方式：myspace".to_string()));
    assert_eq!(
        authorize_url("qq", None, "r"),
        Err("QQ 未配置，请在 src-tauri/.env 中设置 QQ_APP_ID 和 QQ_APP_KEY（https://connect.qq.com）".to_string())
    );
    assert_eq!(callback_uri(8080), "http://127.0.0.1:8080/callback");
}

#[test]
fn settings_page_links() {
    assert_eq!(
        get_social_auth_url("github", "cid", Some("ignored")),
        Ok("https://github.com/login/oauth/authorize?client_id=cid&scope=user:email".to_string())
    );
    assert_eq!(
        get_social_auth_url("qq", "q", None),
        Ok("https://graph.qq.com/oauth2.0/authorize?response_type=code&client_id=q&redirect_uri=http://localhost/callback".to_string())
    );
    assert_eq!(get_social_auth_url("wechat", "", None), Err("微信登录未配置".to_string()));
    assert_eq!(get_social_auth_url("alipay", "", None), Err("支付宝登录未配置".to_string()));
    assert_eq!(get_social_auth_url("x", "id", None), Err("不支持的登录方式：x".to_string()));
}

#[test]
fn callback_code_parsing() {
    assert_eq!(
        callback_code("GET /callback?code=abc123&state=xyz HTTP/1.1\r\nHost: 127.0.0.1\r\n\r\n"),
        Some("abc123".to_string())
    );
    assert_eq!(callback_code("GET /callback?code=one&code=two HTTP/1.1\r\n"), Some("two".to_string()));
    assert_eq!(callback_code("GET /callback?state=x HTTP/1.1\r\n"), None);
    assert_eq!(callback_code("GET /callback HTTP/1.1\r\n"), None);
    assert_eq!(callback_code("GET /callback?code HTTP/1.1\r\n"), None);
    assert_eq!(callback_code("GET /callback?code=a=b HTTP/1.1\r\n"), Some("a=b".to_string()));
    assert_eq!(callback_code(""), None);
}

#[test]
fn profiles() {
    let g = github_user("42", None, Some("g@x.io"), None);
    assert_eq!(g.provider, "github");
    assert_eq!(g.provider_user_id, "42");
    assert_eq!(g.username, "github_user");
    assert_eq!(g.email.as_deref(), Some("g@x.io"));
    let q = qq_user("oid", Some("小明"), Some("http://pic"));
    assert_eq!(q.username, "小明");
    assert_eq!(q.avatar.as_deref(), Some("http://pic"));
    assert_eq!(wechat_user("wid", None, None).username, "wechat_user");
    assert_eq!(alipay_user("2088123456789").username, "alipay_456789");
    assert_eq!(alipay_user("123").username, "alipay_123");
}

#[test]
fn social_login_registers_once() {
    let mut db = UserDatabase::new();
    let profile = OAuthUser {
        provider: "github".to_string(),
        provider_user_id: "42".to_string(),
        username: "octo".to_string(),
        email: None,
        avatar: Some("http://a".to_string()),
    };
    let first = social_login_or_register(&mut db, "github", &profile, "99");
    assert!(first.success);
    assert_eq!(first.message, "github 授权成功，已自动注册");
    let u = first.user.unwrap();
    assert_eq!(u.id, "user_1");
    assert_eq!(u.username, "octo");
    assert_eq!(u.password_hash, "");
    assert_eq!(u.provider.as_deref(), Some("github"));
    assert_eq!(u.provider_user_id.as_deref(), Some("42"));
    assert_eq!(db.next_id, 2);
    let second = social_login_or_register(&mut db, "github", &profile, "100");
    assert!(second.success);
    assert_eq!(second.message, "登录成功");
    assert_eq!(second.user.unwrap().id, "user_1");
    assert_eq!(db.users.len(), 1);
}

#[test]
fn platforms_need_both_credentials() {
    assert_eq!(check_credentials(&Provider::GitHub, "id", "secret"), Ok(()));
    assert_eq!(check_credentials(&Provider::GitHub, "", "secret"), Err("GitHub OAuth 未配置".to_string()));
    assert_eq!(check_credentials(&Provider::QQ, "id", ""), Err("QQ OAuth 未配置".to_string()));
    assert_eq!(check_credentials(&Provider::WeChat, "", ""), Err("微信 OAuth 未配置".to_string()));
    assert_eq!(check_credentials(&Provider::Alipay, "", "key"), Err("支付宝 OAuth 未配置".to_string()));
}
