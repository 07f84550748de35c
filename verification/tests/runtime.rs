use lua_jit::runtime::{
    lua_concat, lua_getglobal, lua_gettable, lua_len, lua_newtable, lua_next, lua_setglobal,
    lua_settable, lua_tostring,
};

#[test]
fn helpers_answer_zero() {
    assert_eq!(lua_len(7), 0);
    assert_eq!(lua_newtable(), 0);
    assert_eq!(lua_settable(1, 2, 3), 0);
    assert_eq!(lua_concat(i64::MIN, i64::MAX), 0);
    assert_eq!(lua_next(5, 6), 0);
    assert_eq!(lua_getglobal(0), 0);
    assert_eq!(lua_setglobal(usize::MAX, -1), 0);
    assert_eq!(lua_tostring(42), 0);
    assert_eq!(lua_gettable(1, 2), 0);
}
