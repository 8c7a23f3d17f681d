use ai_listen::users::{
    email_code_message, generate_code, hash_password, login_email, login_phone, login_username,
    phone_code_message, register_email, register_phone, register_username, send_email_code,
    send_phone_code, verify_code, CodeBook, UserDatabase,
};

#[test]
fn password_hash_is_djb2_in_hex_with_salt() {
    // djb2 of the empty string is its seed, 5381 = 0x1505.
    assert_eq!(hash_password(""), "1505_ai_listen_salt");
    // 5381 * 33 + 97 = 177670 = 0x2b606.
    assert_eq!(hash_password("a"), "2b606_ai_listen_salt");
    assert_ne!(hash_password("secret1"), hash_password("secret2"));
}

#[test]
fn register_email_then_login() {
    let mut db = UserDatabase::new();
    let u = register_email(&mut db, "alice@example.com", "hunter22", "100").unwrap();
    assert_eq!(u.id, "user_1");
    assert_eq!(u.username, "alice");
    assert_eq!(u.email.as_deref(), Some("alice@example.com"));
    assert_eq!(u.phone, None);
    assert_eq!(u.created_at, "100");
    assert!(!u.is_vip);
    assert_eq!(db.next_id, 2);
    assert_eq!(db.users.len(), 1);

    let ok = login_email(&db, "alice@example.com", "hunter22");
    assert!(ok.success);
    assert_eq!(ok.message, "登录成功");
    assert_eq!(ok.user.unwrap().id, "user_1");

    let wrong = login_email(&db, "alice@example.com", "nope-nope");
    assert!(!wrong.success);
    assert_eq!(wrong.message, "密码错误");
    assert!(wrong.user.is_none());

    let unknown = login_email(&db, "bob@example.com", "hunter22");
    assert!(!unknown.success);
    assert_eq!(unknown.message, "该邮箱未注册");
}

#[test]
fn register_email_errors() {
    let mut db = UserDatabase::new();
    assert_eq!(register_email(&mut db, "a@b.c", "12345", "1").err(), Some("密码长度为6-20位".to_string()));
    assert_eq!(
        register_email(&mut db, "a@b.c", "123456789012345678901", "1").err(),
        Some("密码长度为6-20位".to_string())
    );
    // Six bytes of UTF-8 in two chars is long enough.
    assert!(register_email(&mut db, "a@b.c", "密码", "1").is_ok());
    assert_eq!(register_email(&mut db, "a@b.c", "123456", "1").err(), Some("该邮箱已注册".to_string()));
    assert_eq!(db.users.len(), 1);
    assert_eq!(db.next_id, 2);
}

#[test]
fn register_phone_then_login() {
    let mut db = UserDatabase::new();
    let u = register_phone(&mut db, "13812345678", "pass1234", "7").unwrap();
    assert_eq!(u.username, "user_5678");
    assert_eq!(u.phone.as_deref(), Some("13812345678"));
    let r = login_phone(&db, "13812345678", "pass1234");
    assert!(r.success);
    assert_eq!(r.user.unwrap().username, "user_5678");
    assert_eq!(login_phone(&db, "13900000000", "pass1234").message, "该手机号未注册");
    assert_eq!(register_phone(&mut db, "13812345678", "pass1234", "8").err(), Some("该手机号已注册".to_string()));
    let short = register_phone(&mut db, "12", "pass1234", "9").unwrap();
    assert_eq!(short.username, "user_12");
}

#[test]
fn register_username_then_login() {
    let mut db = UserDatabase::new();
    assert_eq!(register_username(&mut db, "x", "pass1234", "1").err(), Some("用户名为2-20个字符".to_string()));
    assert_eq!(register_username(&mut db, "xy", "pass", "1").err(), Some("密码长度为6-20位".to_string()));
    let u = register_username(&mut db, "carol", "pass1234", "1").unwrap();
    assert_eq!(u.id, "user_1");
    assert_eq!(register_username(&mut db, "carol", "pass5678", "2").err(), Some("该用户名已被占用".to_string()));
    let r = login_username(&db, "carol", "pass1234");
    assert!(r.success);
    assert_eq!(r.user.unwrap().username, "carol");
    assert_eq!(login_username(&db, "dave", "pass1234").message, "用户不存在");
}

#[test]
fn login_username_accepts_a_phone_number() {
    let mut db = UserDatabase::new();
    register_phone(&mut db, "13812345678", "pass1234", "1").unwrap();
    let r = login_username(&db, "13812345678", "pass1234");
    assert!(r.success);
    assert_eq!(r.user.unwrap().username, "user_5678");
}

#[test]
fn codes_are_six_digits() {
    for _ in 0..20 {
        let c = generate_code();
        assert_eq!(c.len(), 6);
        let n: u32 = c.parse().unwrap();
        assert!((100000..999999).contains(&n));
    }
}

#[test]
fn email_code_flow() {
    let mut book = CodeBook::new();
    let code = send_email_code(&mut book, "a@b.c", 1000).unwrap();
    assert_eq!(code.len(), 6);
    assert_eq!(
        send_email_code(&mut book, "a@b.c", 1010).err(),
        Some("验证码已发送，请 50s 后重试".to_string())
    );
    assert_eq!(verify_code(&mut book, "a@b.c", "wrong!", 1020), Err("验证码错误".to_string()));
    assert_eq!(verify_code(&mut book, "a@b.c", &code, 1020), Ok(()));
    assert_eq!(verify_code(&mut book, "a@b.c", &code, 1030), Err("验证码已使用".to_string()));
    // A used code does not hold back a new one.
    assert!(send_email_code(&mut book, "a@b.c", 1031).is_ok());
}

#[test]
fn codes_expire_and_are_forgotten() {
    let mut book = CodeBook::new();
    let code = send_email_code(&mut book, "x@y.z", 0).unwrap();
    assert_eq!(verify_code(&mut book, "x@y.z", &code, 300), Ok(()));
    let code2 = send_email_code(&mut book, "p@q.r", 0).unwrap();
    assert_eq!(verify_code(&mut book, "p@q.r", &code2, 301), Err("验证码已过期".to_string()));
    assert_eq!(
        verify_code(&mut book, "p@q.r", &code2, 302),
        Err("未找到验证码，请先获取验证码".to_string())
    );
    assert_eq!(
        verify_code(&mut book, "nobody", "123456", 0),
        Err("未找到验证码，请先获取验证码".to_string())
    );
}

#[test]
fn resend_allowed_after_a_minute() {
    let mut book = CodeBook::new();
    send_email_code(&mut book, "a@b.c", 100).unwrap();
    assert_eq!(send_email_code(&mut book, "a@b.c", 159).err(), Some("验证码已发送，请 1s 后重试".to_string()));
    assert!(send_email_code(&mut book, "a@b.c", 160).is_ok());
}

#[test]
fn phone_codes() {
    let mut book = CodeBook::new();
    assert_eq!(send_phone_code(&mut book, "1234567890", 5).err(), Some("手机号格式不正确".to_string()));
    let code = send_phone_code(&mut book, "13812345678", 5).unwrap();
    assert_eq!(verify_code(&mut book, "13812345678", &code, 6), Ok(()));
}

#[test]
fn code_messages() {
    assert_eq!(email_code_message("123456", true), "验证码已发送到邮箱");
    assert_eq!(email_code_message("123456", false), "验证码：123456（SMTP 未配置，开发模式直接显示）");
    assert_eq!(phone_code_message("654321", true), "验证码已发送到手机");
    assert_eq!(phone_code_message("654321", false), "验证码：654321（短信服务未配置，开发模式直接显示）");
}
