use ai_listen::notify::{aliyun_template_param, sender, sms_route, smtp_settings, tencent_config_check, verification_email_body, SmsProvider};

#[test]
fn smtp_settings_need_host_user_and_password() {
    let missing = "SMTP 未配置，请在 src-tauri/.env 中设置 SMTP_HOST/SMTP_USER/SMTP_PASS".to_string();
    assert_eq!(smtp_settings("", None, "u", "p").err(), Some(missing.clone()));
    assert_eq!(smtp_settings("h", None, "u", "").err(), Some(missing));
    let s = smtp_settings("smtp.example.com", None, "me", "pw").unwrap();
    assert_eq!(s.host, "smtp.example.com");
    assert_eq!(s.port, 465);
    assert_eq!(smtp_settings("h", Some("587"), "u", "p").unwrap().port, 587);
    assert_eq!(smtp_settings("h", Some("+25"), "u", "p").unwrap().port, 25);
    assert_eq!(smtp_settings("h", Some("70000"), "u", "p").unwrap().port, 465);
    assert_eq!(smtp_settings("h", Some("58a"), "u", "p").unwrap().port, 465);
    assert_eq!(smtp_settings("h", Some(""), "u", "p").unwrap().port, 465);
    assert_eq!(smtp_settings("h", Some("65535"), "u", "p").unwrap().port, 65535);
}

#[test]
fn mail_texts() {
    assert_eq!(sender("me@x.io"), "AI Listen RS <me@x.io>");
    assert_eq!(
        verification_email_body("123456"),
        "您好，\n\n您的验证码是：123456\n\n验证码 5 分钟内有效，请勿泄露给他人。\n\nAI Listen RS 团队"
    );
}

#[test]
fn sms_routing() {
    assert_eq!(sms_route("", "a", "b").err(), Some("短信服务未配置".to_string()));
    assert!(matches!(sms_route("aliyun", "a", "b"), Ok(SmsProvider::Aliyun)));
    assert!(matches!(sms_route("tencent", "a", "b"), Ok(SmsProvider::Tencent)));
    assert_eq!(sms_route("twilio", "a", "b").err(), Some("不支持的短信服务商: twilio".to_string()));
    assert_eq!(aliyun_template_param("123456"), "{\"code\":\"123456\"}");
    assert_eq!(tencent_config_check("", "t"), Err("腾讯云短信配置不完整".to_string()));
    assert_eq!(tencent_config_check("a", "t"), Ok(()));
}
