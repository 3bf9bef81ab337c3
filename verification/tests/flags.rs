use rateio::constants::{
    ACCESS_KEY_FLAG, ACCESS_KEY_TAG, DANFE_FLAG, DANFE_TAG, LOAD_CUBICAGE_FLAG, LOAD_CUBICAGE_TAG,
    QUANTITY_FLAG, QUANTITY_TAG, RAZAO_SOCIAL_BACKTRACK_FLAG, RAZAO_SOCIAL_FIRST_TAG,
    RAZAO_SOCIAL_FLAG, SHIPPING_COMPANY_BACKTRACK_FLAG, SHIPPING_COMPANY_FIRST_TAG,
    SHIPPING_COMPANY_FLAG, X_NOME,
};
use rateio::data::flags;
use rateio::data::tags;

#[test]
fn test_get_flags() {
    let (flag1, flag2) = flags::generate_flags();

    assert_eq!(flag1, 0);
    assert_eq!(flag2, 0);
}

#[test]
fn test_update_flags() {
    let (mut flag1, mut flag2) = flags::generate_flags();

    flags::update_flag(&mut flag1, 1);
    assert_eq!(flag1, 1);

    flags::update_flag(&mut flag2, 255);
    assert_eq!(flag2, 255);
}

#[test]
fn test_check_flags() {
    let (mut flag1, _) = flags::generate_flags();

    flags::update_flag(&mut flag1, DANFE_FLAG);
    assert_eq!(flags::check_flag(&flag1, DANFE_FLAG), true);

    flags::update_flag(&mut flag1, RAZAO_SOCIAL_FLAG);
    assert_eq!(flags::check_flag(&flag1, RAZAO_SOCIAL_FLAG), true);
    assert_eq!(flags::check_flag(&flag1, DANFE_FLAG), true);

    flags::update_flag(&mut flag1, SHIPPING_COMPANY_FLAG);
    assert_eq!(flags::check_flag(&flag1, RAZAO_SOCIAL_FLAG), true);
    assert_eq!(flags::check_flag(&flag1, DANFE_FLAG), true);
    assert_eq!(flags::check_flag(&flag1, SHIPPING_COMPANY_FLAG), true);
}

#[test]
fn test_match_tag() {
    let (mut flags, mut backtrack) = flags::generate_flags();
    let mut total_flag = 0;
    let mut total_backtrack = 0;

    // no tag
    tags::match_tag(b"invalid_tag", &mut flags, &mut backtrack);
    assert_eq!(flags, total_flag);
    assert_eq!(backtrack, total_backtrack);

    tags::match_tag(&DANFE_TAG, &mut flags, &mut backtrack);
    total_flag += DANFE_FLAG;
    assert_eq!(flags, total_flag);
    assert_eq!(backtrack, total_backtrack);

    tags::match_tag(&LOAD_CUBICAGE_TAG, &mut flags, &mut backtrack);
    total_flag += LOAD_CUBICAGE_FLAG;
    assert_eq!(flags, total_flag);
    assert_eq!(backtrack, total_backtrack);

    // X_NOME without backtrack
    tags::match_tag(&X_NOME, &mut flags, &mut backtrack);
    assert_eq!(flags, total_flag);
    assert_eq!(backtrack, total_backtrack);

    tags::match_tag(&RAZAO_SOCIAL_FIRST_TAG, &mut flags, &mut backtrack);
    assert_eq!(flags, total_flag);
    assert_eq!(backtrack, total_backtrack + RAZAO_SOCIAL_BACKTRACK_FLAG);

    // X_NOME for razao social
    tags::match_tag(&X_NOME, &mut flags, &mut backtrack);
    assert_eq!(flags, total_flag + RAZAO_SOCIAL_FLAG);
    assert_eq!(backtrack, total_backtrack + RAZAO_SOCIAL_BACKTRACK_FLAG);

    flags::update_flag(&mut flags, RAZAO_SOCIAL_FLAG);
    flags::update_flag(&mut backtrack, RAZAO_SOCIAL_BACKTRACK_FLAG);
    tags::match_tag(&SHIPPING_COMPANY_FIRST_TAG, &mut flags, &mut backtrack);
    assert_eq!(flags, total_flag);
    assert_eq!(backtrack, total_backtrack + SHIPPING_COMPANY_BACKTRACK_FLAG);

    // X_NOME for shipping company
    tags::match_tag(&X_NOME, &mut flags, &mut backtrack);
    assert_eq!(flags, total_flag + SHIPPING_COMPANY_FLAG);
    assert_eq!(backtrack, total_backtrack + SHIPPING_COMPANY_BACKTRACK_FLAG);

    // X_NOME with both flags
    flags::update_flag(&mut flags, SHIPPING_COMPANY_FLAG);
    flags::update_flag(&mut backtrack, SHIPPING_COMPANY_BACKTRACK_FLAG);
    tags::match_tag(&RAZAO_SOCIAL_FIRST_TAG, &mut flags, &mut backtrack);
    tags::match_tag(&SHIPPING_COMPANY_FIRST_TAG, &mut flags, &mut backtrack);
    total_backtrack += RAZAO_SOCIAL_BACKTRACK_FLAG + SHIPPING_COMPANY_BACKTRACK_FLAG;
    total_flag += RAZAO_SOCIAL_FLAG + SHIPPING_COMPANY_FLAG;
    tags::match_tag(&X_NOME, &mut flags, &mut backtrack);
    assert_eq!(flags, total_flag);
    assert_eq!(backtrack, total_backtrack);

    tags::match_tag(&QUANTITY_TAG, &mut flags, &mut backtrack);
    total_flag += QUANTITY_FLAG;
    assert_eq!(flags, total_flag);
    assert_eq!(backtrack, total_backtrack);

    tags::match_tag(&ACCESS_KEY_TAG, &mut flags, &mut backtrack);
    total_flag += ACCESS_KEY_FLAG;
    assert_eq!(flags, total_flag);
    assert_eq!(backtrack, total_backtrack);
}
