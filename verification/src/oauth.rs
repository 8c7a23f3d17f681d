//! Sign-in through GitHub, QQ, WeChat and Alipay: the authorisation links,
//! the code that comes back to the local callback, the profile each
//! platform gives, and the account it signs in to or opens.
use vstd::prelude::*;
use crate::text::{
    boundary_index, byte_len, chars_of, decimal, index_at_byte, is_boundary, lines, lines_of,
    push_all, push_decimal, push_str, same_text, slice_chars, split_chars, split_on, split_words,
    string_of, utf8_len, views, words, occurs_at,
};
use crate::users::{user_id, user_id_text, User, UserDatabase};

verus! {

/// A profile given by a sign-in platform.
pub struct OAuthUser {
    pub provider: String,
    pub provider_user_id: String,
    pub username: String,
    pub email: Option<String>,
    pub avatar: Option<String>,
}

/// The answer to a social sign-in.
pub struct OAuthResult {
    pub success: bool,
    pub message: String,
    pub user: Option<User>,
}

/// The platforms one can sign in with.
pub enum Provider {
    GitHub,
    QQ,
    WeChat,
    Alipay,
}

/// The platform a name stands for.
pub open spec fn provider_named(name: Seq<char>) -> Option<Provider> {
    if name == "github"@ {
        Some(Provider::GitHub)
    } else if name == "qq"@ {
        Some(Provider::QQ)
    } else if name == "wechat"@ {
        Some(Provider::WeChat)
    } else if name == "alipay"@ {
        Some(Provider::Alipay)
    } else {
        None
    }
}

pub fn parse_provider(name: &str) -> (r: Option<Provider>)
    ensures
        r == provider_named(name@),
{
    if same_text(name, "github") {
        Some(Provider::GitHub)
    } else if same_text(name, "qq") {
        Some(Provider::QQ)
    } else if same_text(name, "wechat") {
        Some(Provider::WeChat)
    } else if same_text(name, "alipay") {
        Some(Provider::Alipay)
    } else {
        None
    }
}

/// The environment variable that holds a platform's application id.
pub open spec fn app_id_var_text(p: Provider) -> Seq<char> {
    match p {
        Provider::GitHub => "GITHUB_CLIENT_ID"@,
        Provider::QQ => "QQ_APP_ID"@,
        Provider::WeChat => "WECHAT_APP_ID"@,
        Provider::Alipay => "ALIPAY_APP_ID"@,
    }
}

pub fn app_id_var(p: &Provider) -> (r: &'static str)
    ensures
        r@ == app_id_var_text(*p),
{
    match p {
        Provider::GitHub => "GITHUB_CLIENT_ID",
        Provider::QQ => "QQ_APP_ID",
        Provider::WeChat => "WECHAT_APP_ID",
        Provider::Alipay => "ALIPAY_APP_ID",
    }
}

/// The environment variable that holds the redirect address a platform's
/// link names (GitHub's link names none).
pub open spec fn redirect_var_text(p: Provider) -> Seq<char> {
    match p {
        Provider::GitHub => "GITHUB_REDIRECT_URI"@,
        Provider::QQ => "QQ_REDIRECT_URI"@,
        Provider::WeChat => "WECHAT_REDIRECT_URI"@,
        Provider::Alipay => "ALIPAY_REDIRECT_URI"@,
    }
}

pub fn redirect_var(p: &Provider) -> (r: &'static str)
    ensures
        r@ == redirect_var_text(*p),
{
    match p {
        Provider::GitHub => "GITHUB_REDIRECT_URI",
        Provider::QQ => "QQ_REDIRECT_URI",
        Provider::WeChat => "WECHAT_REDIRECT_URI",
        Provider::Alipay => "ALIPAY_REDIRECT_URI",
    }
}

/// `不支持的登录方式：{provider}`.
pub open spec fn unsupported_text(provider: Seq<char>) -> Seq<char> {
    "不支持的登录方式："@ + provider
}

fn unsupported(provider: &str) -> (r: String)
    ensures
        r@ == unsupported_text(provider@),
{
    let mut out: Vec<char> = Vec::new();
    push_str(&mut out, "不支持的登录方式：");
    push_str(&mut out, provider);
    string_of(&out)
}

/// What the sign-in flow says when a platform's application id is not set.
pub open spec fn not_configured_text(p: Provider) -> Seq<char> {
    match p {
        Provider::GitHub => "GitHub 未配置，请在 src-tauri/.env 中设置 GITHUB_CLIENT_ID 和 GITHUB_CLIENT_SECRET（https://github.com/settings/developers）"@,
        Provider::QQ => "QQ 未配置，请在 src-tauri/.env 中设置 QQ_APP_ID 和 QQ_APP_KEY（https://connect.qq.com）"@,
        Provider::WeChat => "微信未配置，请在 src-tauri/.env 中设置 WECHAT_APP_ID 和 WECHAT_APP_SECRET（https://open.weixin.qq.com）"@,
        Provider::Alipay => "支付宝未配置，请在 src-tauri/.env 中设置 ALIPAY_APP_ID 和 ALIPAY_PRIVATE_KEY（https://open.alipay.com）"@,
    }
}

/// The authorisation link of the sign-in flow, with the local callback as
/// redirect address.
pub open spec fn authorize_url_text(p: Provider, id: Seq<char>, redirect: Seq<char>) -> Seq<char> {
    match p {
        Provider::GitHub => "https://github.com/login/oauth/authorize?client_id="@ + id + "&redirect_uri="@ + redirect
            + "&scope=user:email"@,
        Provider::QQ => "https://graph.qq.com/oauth2.0/authorize?response_type=code&client_id="@ + id
            + "&redirect_uri="@ + redirect + "&scope=get_user_info"@,
        Provider::WeChat => "https://open.weixin.qq.com/connect/qrconnect?appid="@ + id + "&redirect_uri="@ + redirect
            + "&response_type=code&scope=snsapi_login"@,
        Provider::Alipay => "https://openauth.alipay.com/oauth2/publicAppAuthorize.htm?app_id="@ + id
            + "&scope=auth_user&redirect_uri="@ + redirect,
    }
}

/// The link the sign-in flow opens in the browser: refused for an unknown
/// platform, and when the platform's application id variable is not set
/// (`client_id` is `None`).
pub fn authorize_url(provider: &str, client_id: Option<&str>, redirect_uri: &str) -> (r: Result<String, String>)
    ensures
        provider_named(provider@) is None ==> (r matches Err(e) && e@ == unsupported_text(provider@)),
        provider_named(provider@) matches Some(p) ==> match client_id {
            None => r matches Err(e) && e@ == not_configured_text(p),
            Some(id) => r matches Ok(u) && u@ == authorize_url_text(p, id@, redirect_uri@),
        },
{
    let p = match parse_provider(provider) {
        Some(p) => p,
        None => return Err(unsupported(provider)),
    };
    let id = match client_id {
        Some(id) => id,
        None => {
            let msg = match p {
                Provider::GitHub => "GitHub 未配置，请在 src-tauri/.env 中设置 GITHUB_CLIENT_ID 和 GITHUB_CLIENT_SECRET（https://github.com/settings/developers）",
                Provider::QQ => "QQ 未配置，请在 src-tauri/.env 中设置 QQ_APP_ID 和 QQ_APP_KEY（https://connect.qq.com）",
                Provider::WeChat => "微信未配置，请在 src-tauri/.env 中设置 WECHAT_APP_ID 和 WECHAT_APP_SECRET（https://open.weixin.qq.com）",
                Provider::Alipay => "支付宝未配置，请在 src-tauri/.env 中设置 ALIPAY_APP_ID 和 ALIPAY_PRIVATE_KEY（https://open.alipay.com）",
            };
            return Err(String::from_str(msg));
        },
    };
    let mut out: Vec<char> = Vec::new();
    match p {
        Provider::GitHub => {
            push_str(&mut out, "https://github.com/login/oauth/authorize?client_id=");
            push_str(&mut out, id);
            push_str(&mut out, "&redirect_uri=");
            push_str(&mut out, redirect_uri);
            push_str(&mut out, "&scope=user:email");
        },
        Provider::QQ => {
            push_str(&mut out, "https://graph.qq.com/oauth2.0/authorize?response_type=code&client_id=");
            push_str(&mut out, id);
            push_str(&mut out, "&redirect_uri=");
            push_str(&mut out, redirect_uri);
            push_str(&mut out, "&scope=get_user_info");
        },
        Provider::WeChat => {
            push_str(&mut out, "https://open.weixin.qq.com/connect/qrconnect?appid=");
            push_str(&mut out, id);
            push_str(&mut out, "&redirect_uri=");
            push_str(&mut out, redirect_uri);
            push_str(&mut out, "&response_type=code&scope=snsapi_login");
        },
        Provider::Alipay => {
            push_str(&mut out, "https://openauth.alipay.com/oauth2/publicAppAuthorize.htm?app_id=");
            push_str(&mut out, id);
            push_str(&mut out, "&scope=auth_user&redirect_uri=");
            push_str(&mut out, redirect_uri);
        },
    }
    Ok(string_of(&out))
}

/// The address of the local callback: `http://127.0.0.1:{port}/callback`.
pub open spec fn callback_uri_text(port: u16) -> Seq<char> {
    "http://127.0.0.1:"@ + decimal(port as nat) + "/callback"@
}

pub fn callback_uri(port: u16) -> (r: String)
    ensures
        r@ == callback_uri_text(port),
{
    let mut out: Vec<char> = Vec::new();
    push_str(&mut out, "http://127.0.0.1:");
    push_decimal(&mut out, port as u128);
    push_str(&mut out, "/callback");
    string_of(&out)
}

/// What the settings page is told when a platform's application id is empty.
pub open spec fn login_not_configured_text(p: Provider) -> Seq<char> {
    match p {
        Provider::GitHub => "GitHub 登录未配置"@,
        Provider::QQ => "QQ 登录未配置"@,
        Provider::WeChat => "微信登录未配置"@,
        Provider::Alipay => "支付宝登录未配置"@,
    }
}

/// The authorisation link the settings page shows: GitHub's names no
/// redirect address, QQ's asks for no scope.
pub open spec fn social_auth_url_text(p: Provider, id: Seq<char>, redirect: Seq<char>) -> Seq<char> {
    match p {
        Provider::GitHub => "https://github.com/login/oauth/authorize?client_id="@ + id + "&scope=user:email"@,
        Provider::QQ => "https://graph.qq.com/oauth2.0/authorize?response_type=code&client_id="@ + id
            + "&redirect_uri="@ + redirect,
        Provider::WeChat => "https://open.weixin.qq.com/connect/qrconnect?appid="@ + id + "&redirect_uri="@ + redirect
            + "&response_type=code&scope=snsapi_login"@,
        Provider::Alipay => "https://openauth.alipay.com/oauth2/publicAppAuthorize.htm?app_id="@ + id
            + "&scope=auth_user&redirect_uri="@ + redirect,
    }
}

/// The settings page links WeChat and Alipay exactly as the sign-in flow
/// does for the same application id and redirect address.
pub proof fn lemma_settings_link_is_sign_in_link(id: Seq<char>, redirect: Seq<char>)
    ensures
        social_auth_url_text(Provider::WeChat, id, redirect) == authorize_url_text(Provider::WeChat, id, redirect),
        social_auth_url_text(Provider::Alipay, id, redirect) == authorize_url_text(Provider::Alipay, id, redirect),
{
}

/// The settings-page link of QQ, WeChat and Alipay carries the redirect
/// address: `&redirect_uri=` followed by it stands in the link.
pub proof fn lemma_settings_link_carries_redirect(p: Provider, id: Seq<char>, redirect: Seq<char>)
    requires
        p != Provider::GitHub,
    ensures
        exists|i: int|
            occurs_at(social_auth_url_text(p, id, redirect), "&redirect_uri="@ + redirect, i),
{
    let r = "&redirect_uri="@ + redirect;
    let link = social_auth_url_text(p, id, redirect);
    let (pre, mid, post) = match p {
        Provider::QQ => ("https://graph.qq.com/oauth2.0/authorize?response_type=code&client_id="@, Seq::<char>::empty(), Seq::<char>::empty()),
        Provider::WeChat => ("https://open.weixin.qq.com/connect/qrconnect?appid="@, Seq::<char>::empty(), "&response_type=code&scope=snsapi_login"@),
        _ => ("https://openauth.alipay.com/oauth2/publicAppAuthorize.htm?app_id="@, "&scope=auth_user"@, Seq::<char>::empty()),
    };
    match p {
        Provider::Alipay => {
            reveal_strlit("&scope=auth_user&redirect_uri=");
            reveal_strlit("&scope=auth_user");
            reveal_strlit("&redirect_uri=");
            assert("&scope=auth_user&redirect_uri="@ =~= "&scope=auth_user"@ + "&redirect_uri="@);
        },
        _ => {},
    }
    assert(link =~= pre + id + mid + r + post);
    let i: int = (pre.len() + id.len() + mid.len()) as int;
    assert(link.subrange(i, i + r.len()) =~= r);
    assert(occurs_at(link, r, i));
}

/// The redirect address when its variable is not set.
pub open spec fn default_redirect() -> Seq<char> {
    "http://localhost/callback"@
}

/// The authorisation link for the settings page, from the platform's
/// application id (empty when its variable is not set) and its redirect
/// variable.
pub fn get_social_auth_url(provider: &str, app_id: &str, redirect_uri: Option<&str>) -> (r: Result<String, String>)
    ensures
        provider_named(provider@) is None ==> (r matches Err(e) && e@ == unsupported_text(provider@)),
        provider_named(provider@) matches Some(p) ==> if app_id@.len() == 0 {
            r matches Err(e) && e@ == login_not_configured_text(p)
        } else {
            r matches Ok(u) && u@ == social_auth_url_text(
                p,
                app_id@,
                match redirect_uri {
                    Some(x) => x@,
                    None => default_redirect(),
                },
            )
        },
{
    let p = match parse_provider(provider) {
        Some(p) => p,
        None => return Err(unsupported(provider)),
    };
    let id = chars_of(app_id);
    if id.len() == 0 {
        let msg = match p {
            Provider::GitHub => "GitHub 登录未配置",
            Provider::QQ => "QQ 登录未配置",
            Provider::WeChat => "微信登录未配置",
            Provider::Alipay => "支付宝登录未配置",
        };
        return Err(String::from_str(msg));
    }
    let redirect = match redirect_uri {
        Some(x) => x,
        None => "http://localhost/callback",
    };
    let mut out: Vec<char> = Vec::new();
    match p {
        Provider::GitHub => {
            push_str(&mut out, "https://github.com/login/oauth/authorize?client_id=");
            push_str(&mut out, app_id);
            push_str(&mut out, "&scope=user:email");
        },
        Provider::QQ => {
            push_str(&mut out, "https://graph.qq.com/oauth2.0/authorize?response_type=code&client_id=");
            push_str(&mut out, app_id);
            push_str(&mut out, "&redirect_uri=");
            push_str(&mut out, redirect);
        },
        Provider::WeChat => {
            push_str(&mut out, "https://open.weixin.qq.com/connect/qrconnect?appid=");
            push_str(&mut out, app_id);
            push_str(&mut out, "&redirect_uri=");
            push_str(&mut out, redirect);
            push_str(&mut out, "&response_type=code&scope=snsapi_login");
        },
        Provider::Alipay => {
            push_str(&mut out, "https://openauth.alipay.com/oauth2/publicAppAuthorize.htm?app_id=");
            push_str(&mut out, app_id);
            push_str(&mut out, "&scope=auth_user&redirect_uri=");
            push_str(&mut out, redirect);
        },
    }
    Ok(string_of(&out))
}

/// A `key=value` pair of a query: the text before the first `=` and the
/// text after it; without `=` it is no pair.
pub open spec fn query_pair(s: Seq<char>) -> Option<(Seq<char>, Seq<char>)> {
    if exists|k: int| 0 <= k < s.len() && s[k] == '=' {
        let k = choose|k: int| 0 <= k < s.len() && s[k] == '=' && forall|m: int| 0 <= m < k ==> s[m] != '=';
        Some((s.take(k), s.skip(k + 1)))
    } else {
        None
    }
}

/// The value of the last `code=` pair (later pairs win, as in a map built
/// from them in order).
pub open spec fn last_code(pairs: Seq<Seq<char>>) -> Option<Seq<char>>
    decreases pairs.len(),
{
    if pairs.len() == 0 {
        None
    } else {
        match query_pair(pairs.last()) {
            Some(kv) => if kv.0 == "code"@ {
                Some(kv.1)
            } else {
                last_code(pairs.drop_last())
            },
            None => last_code(pairs.drop_last()),
        }
    }
}

/// The `code` parameter of the request that reaches the callback: in the
/// first line, the second word is the target, its query is the text after
/// the first `?` (up to a second one), split at `&`.
pub open spec fn request_code(request: Seq<char>) -> Option<Seq<char>> {
    let ls = lines_of(request);
    if ls.len() == 0 {
        None
    } else {
        let ws = words(ls[0]);
        let target = if ws.len() > 1 { ws[1] } else { seq![] };
        let parts = split_on(target, '?');
        if parts.len() > 1 {
            last_code(split_on(parts[1], '&'))
        } else {
            None
        }
    }
}

fn pair_of(v: &Vec<char>) -> (r: Option<(Vec<char>, Vec<char>)>)
    ensures
        match query_pair(v@) {
            None => r is None,
            Some(kv) => r matches Some(x) && x.0@ == kv.0 && x.1@ == kv.1,
        },
{
    let mut k: usize = 0;
    while k < v.len() && v[k] != '='
        invariant
            k <= v.len(),
            forall|m: int| 0 <= m < k ==> v@[m] != '=',
        decreases v.len() - k,
    {
        k += 1;
    }
    if k == v.len() {
        None
    } else {
        proof {
            let c = choose|c: int| 0 <= c < v@.len() && v@[c] == '=' && forall|m: int| 0 <= m < c ==> v@[m] != '=';
            assert(v@[k as int] == '=');
            if c < k {
                assert(v@[c] != '=');
            }
            if c > k {
                assert(v@[k as int] != '=');
            }
            assert(v@.subrange(0, k as int) == v@.take(k as int));
            assert(v@.subrange(k + 1, v@.len() as int) == v@.skip(k + 1));
        }
        Some((slice_chars(v, 0, k), slice_chars(v, k + 1, v.len())))
    }
}

/// The `code` parameter of the request that reached the local callback.
pub fn callback_code(request: &str) -> (r: Option<String>)
    ensures
        match request_code(request@) {
            None => r is None,
            Some(c) => r matches Some(x) && x@ == c,
        },
{
    let ls = lines(&chars_of(request));
    if ls.len() == 0 {
        return None;
    }
    proof {
        assert(views(ls@)[0] == ls@[0]@);
    }
    let ws = split_words(&ls[0]);
    let target: Vec<char> = if ws.len() > 1 {
        proof {
            assert(views(ws@)[1] == ws@[1]@);
        }
        slice_chars(&ws[1], 0, ws[1].len())
    } else {
        Vec::new()
    };
    proof {
        if ws.len() > 1 {
            assert(ws@[1]@.subrange(0, ws@[1]@.len() as int) == ws@[1]@);
        }
    }
    let parts = split_chars(&target, '?');
    if parts.len() <= 1 {
        return None;
    }
    proof {
        assert(views(parts@)[1] == parts@[1]@);
    }
    let pairs = split_chars(&parts[1], '&');
    let ghost ps = views(pairs@);
    proof {
        let ls_v = lines_of(request@);
        assert(ls_v[0] == ls@[0]@);
        let ws_v = words(ls_v[0]);
        assert(ws_v == views(ws@));
        if ws_v.len() > 1 {
            assert(ws_v[1] == target@);
        } else {
            assert(target@ == Seq::<char>::empty());
        }
        assert(split_on(target@, '?') == views(parts@));
        assert(split_on(target@, '?')[1] == parts@[1]@);
        assert(request_code(request@) == last_code(ps));
        assert(ps.take(ps.len() as int) == ps);
    }
    let mut i: usize = pairs.len();
    while i > 0
        invariant
            i <= pairs@.len(),
            ps == views(pairs@),
            ps.len() == pairs@.len(),
            request_code(request@) == last_code(ps),
            last_code(ps) == last_code(ps.take(i as int)),
        decreases i,
    {
        let ghost t = ps.take(i as int);
        proof {
            assert(t.last() == pairs@[i - 1]@);
            assert(t.drop_last() == ps.take(i - 1));
        }
        match pair_of(&pairs[i - 1]) {
            Some((k, v)) => {
                let key = string_of(&k);
                if same_text(key.as_str(), "code") {
                    return Some(string_of(&v));
                }
            },
            None => {},
        }
        i -= 1;
    }
    None
}

/// The profile a platform gave: its name, the user's id there, the name
/// to use, and the address and picture if given.
pub open spec fn profile(u: OAuthUser, provider: Seq<char>, id: Seq<char>, username: Seq<char>, email: Option<Seq<char>>, avatar: Option<Seq<char>>) -> bool {
    &&& u.provider@ == provider
    &&& u.provider_user_id@ == id
    &&& u.username@ == username
    &&& match email {
        Some(e) => u.email matches Some(x) && x@ == e,
        None => u.email is None,
    }
    &&& match avatar {
        Some(a) => u.avatar matches Some(x) && x@ == a,
        None => u.avatar is None,
    }
}

pub open spec fn opt_view(o: Option<&str>) -> Option<Seq<char>> {
    match o {
        Some(s) => Some(s@),
        None => None,
    }
}

pub open spec fn or_default(o: Option<&str>, d: Seq<char>) -> Seq<char> {
    match o {
        Some(s) => s@,
        None => d,
    }
}

fn opt_string(o: Option<&str>) -> (r: Option<String>)
    ensures
        match o {
            Some(s) => r matches Some(x) && x@ == s@,
            None => r is None,
        },
{
    match o {
        Some(s) => Some(String::from_str(s)),
        None => None,
    }
}

fn text_or(o: Option<&str>, d: &str) -> (r: String)
    ensures
        r@ == or_default(o, d@),
{
    match o {
        Some(s) => String::from_str(s),
        None => String::from_str(d),
    }
}

/// The GitHub profile: the user's `id` as JSON text, `login` (else
/// `github_user`), `email` and `avatar_url` when they are strings.
pub fn github_user(id_text: &str, login: Option<&str>, email: Option<&str>, avatar_url: Option<&str>) -> (u: OAuthUser)
    ensures
        profile(u, "github"@, id_text@, or_default(login, "github_user"@), opt_view(email), opt_view(avatar_url)),
{
    OAuthUser {
        provider: String::from_str("github"),
        provider_user_id: String::from_str(id_text),
        username: text_or(login, "github_user"),
        email: opt_string(email),
        avatar: opt_string(avatar_url),
    }
}

/// The QQ profile: the `openid`, `nickname` (else `qq_user`) and
/// `figureurl_qq_2`.
pub fn qq_user(openid: &str, nickname: Option<&str>, figure_url: Option<&str>) -> (u: OAuthUser)
    ensures
        profile(u, "qq"@, openid@, or_default(nickname, "qq_user"@), None, opt_view(figure_url)),
{
    OAuthUser {
        provider: String::from_str("qq"),
        provider_user_id: String::from_str(openid),
        username: text_or(nickname, "qq_user"),
        email: None,
        avatar: opt_string(figure_url),
    }
}

/// The WeChat profile: the `openid`, `nickname` (else `wechat_user`) and
/// `headimgurl`.
pub fn wechat_user(openid: &str, nickname: Option<&str>, head_image_url: Option<&str>) -> (u: OAuthUser)
    ensures
        profile(u, "wechat"@, openid@, or_default(nickname, "wechat_user"@), None, opt_view(head_image_url)),
{
    OAuthUser {
        provider: String::from_str("wechat"),
        provider_user_id: String::from_str(openid),
        username: text_or(nickname, "wechat_user"),
        email: None,
        avatar: opt_string(head_image_url),
    }
}

/// The byte where the last six bytes of a text start (0 when shorter).
pub open spec fn last_six_start(s: Seq<char>) -> nat {
    if byte_len(s) >= 6 {
        (byte_len(s) - 6) as nat
    } else {
        0
    }
}

/// The last six bytes of an Alipay user id (all of it when shorter).
pub open spec fn alipay_suffix(id: Seq<char>) -> Seq<char> {
    id.skip(boundary_index(id, last_six_start(id)))
}

/// The Alipay profile: the `user_id`, and the name `alipay_` with the last
/// six bytes of the id, which must not cut a char (else slicing panics).
pub fn alipay_user(user_id: &str) -> (u: OAuthUser)
    requires
        is_boundary(user_id@, last_six_start(user_id@)),
    ensures
        profile(u, "alipay"@, user_id@, "alipay_"@ + alipay_suffix(user_id@), None, None),
{
    let cs = chars_of(user_id);
    let n = utf8_len(user_id);
    let start: u128 = if n >= 6 { n - 6 } else { 0 };
    let k = match index_at_byte(&cs, start) {
        Some(k) => k,
        None => {
            proof {
                assert(false);
            }
            0
        },
    };
    proof {
        crate::text::lemma_boundary_index(cs@, start as nat, k as int);
    }
    let tail = slice_chars(&cs, k, cs.len());
    proof {
        assert(tail@ == user_id@.skip(k as int));
    }
    let mut name: Vec<char> = Vec::new();
    push_str(&mut name, "alipay_");
    push_all(&mut name, &tail);
    OAuthUser {
        provider: String::from_str("alipay"),
        provider_user_id: String::from_str(user_id),
        username: string_of(&name),
        email: None,
        avatar: None,
    }
}


/// The user signed up through this platform with this id there.
pub open spec fn provider_matches(u: User, provider: Seq<char>, id: Seq<char>) -> bool {
    &&& u.provider matches Some(p) && p@ == provider
    &&& u.provider_user_id matches Some(x) && x@ == id
}

/// The first user at or after `i` signed up through the platform with the id.
pub open spec fn provider_match_from(users: Seq<User>, provider: Seq<char>, id: Seq<char>, i: int) -> Option<int>
    decreases users.len() - i,
{
    if i < 0 || i >= users.len() {
        None
    } else if provider_matches(users[i], provider, id) {
        Some(i)
    } else {
        provider_match_from(users, provider, id, i + 1)
    }
}

pub open spec fn provider_match(users: Seq<User>, provider: Seq<char>, id: Seq<char>) -> Option<int> {
    provider_match_from(users, provider, id, 0)
}

pub proof fn lemma_provider_match_from(users: Seq<User>, provider: Seq<char>, id: Seq<char>, i: int)
    requires
        0 <= i,
    ensures
        provider_match_from(users, provider, id, i) matches Some(j) ==> i <= j < users.len()
            && provider_matches(users[j], provider, id)
            && forall|m: int| i <= m < j ==> !provider_matches(#[trigger] users[m], provider, id),
        provider_match_from(users, provider, id, i) is None ==> forall|m: int| i <= m < users.len()
            ==> !provider_matches(#[trigger] users[m], provider, id),
    decreases users.len() - i,
{
    if i < users.len() && !provider_matches(users[i], provider, id) {
        lemma_provider_match_from(users, provider, id, i + 1);
    }
}

fn opt_text_is(o: &Option<String>, s: &str) -> (b: bool)
    ensures
        b == (o matches Some(x) && x@ == s@),
{
    match o {
        Some(x) => same_text(x.as_str(), s),
        None => false,
    }
}

/// Where the first user of the platform with this id is.
pub fn find_user_by_provider(users: &Vec<User>, provider: &str, provider_user_id: &str) -> (r: Option<usize>)
    ensures
        r matches Some(i) ==> provider_match(users@, provider@, provider_user_id@) == Some(i as int),
        r is None ==> provider_match(users@, provider@, provider_user_id@) is None,
{
    let mut i: usize = 0;
    while i < users.len()
        invariant
            i <= users.len(),
            provider_match(users@, provider@, provider_user_id@) == provider_match_from(users@, provider@, provider_user_id@, i as int),
        decreases users.len() - i,
    {
        if opt_text_is(&users[i].provider, provider) && opt_text_is(&users[i].provider_user_id, provider_user_id) {
            return Some(i);
        }
        i += 1;
    }
    None
}

/// The account opened for a first sign-in through a platform: the next
/// number, the profile's name, address and picture, no password, no phone.
pub open spec fn social_user(u: User, n: nat, provider: Seq<char>, o: OAuthUser, created_at: Seq<char>) -> bool {
    &&& u.id@ == user_id_text(n)
    &&& u.username@ == o.username@
    &&& u.email == o.email
    &&& u.phone is None
    &&& u.password_hash@.len() == 0
    &&& u.created_at@ == created_at
    &&& !u.is_vip
    &&& u.provider matches Some(p) && p@ == provider
    &&& u.provider_user_id == Some(o.provider_user_id)
    &&& u.avatar == o.avatar
}

/// `{provider} 授权成功，已自动注册`.
pub open spec fn auto_registered_text(provider: Seq<char>) -> Seq<char> {
    provider + " 授权成功，已自动注册"@
}

fn clone_opt_string(o: &Option<String>) -> (r: Option<String>)
    ensures
        r == *o,
{
    match o {
        Some(s) => Some(s.clone()),
        None => None,
    }
}

/// Signs in the user the platform's profile belongs to, or opens an account
/// for it the first time.
pub fn social_login_or_register(db: &mut UserDatabase, provider: &str, oauth_user: &OAuthUser, created_at: &str) -> (r: OAuthResult)
    requires
        provider_match(old(db).users@, provider@, oauth_user.provider_user_id@) is None ==> old(db).next_id < u64::MAX,
    ensures
        provider_match(old(db).users@, provider@, oauth_user.provider_user_id@) matches Some(i) ==> {
            &&& *final(db) == *old(db)
            &&& r.success
            &&& r.message@ == "登录成功"@
            &&& r.user == Some(old(db).users@[i])
        },
        provider_match(old(db).users@, provider@, oauth_user.provider_user_id@) is None ==> {
            &&& r.success
            &&& r.message@ == auto_registered_text(provider@)
            &&& r.user matches Some(u) && social_user(u, old(db).next_id as nat, provider@, *oauth_user, created_at@)
                && final(db).users@ == old(db).users@.push(u)
            &&& final(db).next_id == old(db).next_id + 1
        },
{
    proof {
        lemma_provider_match_from(db.users@, provider@, oauth_user.provider_user_id@, 0);
    }
    match find_user_by_provider(&db.users, provider, oauth_user.provider_user_id.as_str()) {
        Some(i) => {
            OAuthResult { success: true, message: String::from_str("登录成功"), user: Some(db.users[i].clone()) }
        },
        None => {
            let user = User {
                id: user_id(db.next_id),
                username: oauth_user.username.clone(),
                email: clone_opt_string(&oauth_user.email),
                phone: None,
                password_hash: String::new(),
                created_at: String::from_str(created_at),
                is_vip: false,
                provider: Some(String::from_str(provider)),
                provider_user_id: Some(oauth_user.provider_user_id.clone()),
                avatar: clone_opt_string(&oauth_user.avatar),
            };
            db.next_id = db.next_id + 1;
            db.users.push(user.clone());
            let mut msg: Vec<char> = Vec::new();
            push_str(&mut msg, provider);
            push_str(&mut msg, " 授权成功，已自动注册");
            OAuthResult { success: true, message: string_of(&msg), user: Some(user) }
        },
    }
}

/// After the first sign-in through a platform opened an account, the next
/// sign-in with the same profile finds that account.
pub proof fn lemma_social_login_finds_new_account(users: Seq<User>, u: User, provider: Seq<char>, id: Seq<char>)
    requires
        provider_match(users, provider, id) is None,
        provider_matches(u, provider, id),
    ensures
        provider_match(users.push(u), provider, id) == Some(users.len() as int),
{
    lemma_provider_match_from(users, provider, id, 0);
    let s = users.push(u);
    lemma_provider_match_from(s, provider, id, 0);
    assert(provider_matches(s[users.len() as int], provider, id));
    match provider_match(s, provider, id) {
        Some(j) => {
            if j < users.len() {
                assert(s[j] == users[j]);
            }
        },
        None => {},
    }
}

/// The error of a platform whose credentials are not set.
pub open spec fn credentials_missing_text(p: Provider) -> Seq<char> {
    match p {
        Provider::GitHub => "GitHub OAuth 未配置"@,
        Provider::QQ => "QQ OAuth 未配置"@,
        Provider::WeChat => "微信 OAuth 未配置"@,
        Provider::Alipay => "支付宝 OAuth 未配置"@,
    }
}

/// Refuses to talk to a platform unless both its app id and its secret (or
/// key) are set.
pub fn check_credentials(provider: &Provider, id: &str, secret: &str) -> (r: Result<(), String>)
    ensures
        r is Err <==> (id@.len() == 0 || secret@.len() == 0),
        r matches Err(e) ==> e@ == credentials_missing_text(*provider),
{
    let a = chars_of(id);
    let b = chars_of(secret);
    if a.len() == 0 || b.len() == 0 {
        Err(match provider {
            Provider::GitHub => String::from_str("GitHub OAuth 未配置"),
            Provider::QQ => String::from_str("QQ OAuth 未配置"),
            Provider::WeChat => String::from_str("微信 OAuth 未配置"),
            Provider::Alipay => String::from_str("支付宝 OAuth 未配置"),
        })
    } else {
        Ok(())
    }
}

} // verus!
