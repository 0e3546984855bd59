//! The field order is prime: the powers of the generator run through all nonzero residues, so every
//! nonzero residue has an inverse and a product vanishes only where a factor does.
use crate::field::{
    ered, is_einverse, is_inverse, lemma_cong_diff, lemma_cong_mul, lemma_econg_mul, lemma_ered,
    lemma_red_bound, lemma_red_mul, lemma_red_small, red, zmul, P,
};
use vstd::prelude::*;

verus! {

/// `7^k` in the field.
pub open spec fn pw(k: nat) -> int
    decreases k,
{
    if k == 0 {
        1
    } else {
        red(7 * pw((k - 1) as nat))
    }
}

proof fn lemma_pw_bound(k: nat)
    ensures
        0 <= pw(k) < P,
{
    if k > 0 {
        lemma_red_bound(7 * pw((k - 1) as nat));
    }
}

proof fn lemma_pw_add(a: nat, b: nat)
    ensures
        pw(a + b) == red(pw(a) * pw(b)),
    decreases a,
{
    lemma_pw_bound(b);
    if a == 0 {
        lemma_red_small(pw(b));
        assert(1 * pw(b) == pw(b));
    } else {
        let c = (a - 1) as nat;
        lemma_pw_add(c, b);
        lemma_red_mul(7, pw(c) * pw(b));
        lemma_red_mul(7 * pw(c), pw(b));
        assert(7 * (pw(c) * pw(b)) == (7 * pw(c)) * pw(b)) by (nonlinear_arith);
        assert(a + b - 1 == c + b);
    }
}

proof fn lemma_pw_step(a: nat, b: nat, x: int, y: int, z: int)
    requires
        pw(a) == x,
        pw(b) == y,
        red(x * y) == z,
    ensures
        pw(a + b) == z,
{
    lemma_pw_add(a, b);
}

proof fn lemma_pw_2_31()
    ensures
        pw(2147483648) == 0xF1323B7ACAB09084,
{
    reveal_with_fuel(pw, 2);
    assert(pw(1) == 7);
    lemma_pw_step(1, 1, 0x7, 0x7, 0x31);
    lemma_pw_step(2, 2, 0x31, 0x31, 0x961);
    lemma_pw_step(4, 4, 0x961, 0x961, 0x57F6C1);
    lemma_pw_step(8, 8, 0x57F6C1, 0x57F6C1, 0x1E39A5057D81);
    lemma_pw_step(16, 16, 0x1E39A5057D81, 0x1E39A5057D81, 0x33CDC3006AFFAB59);
    lemma_pw_step(32, 32, 0x33CDC3006AFFAB59, 0x33CDC3006AFFAB59, 0x9C232DFB69AB851E);
    lemma_pw_step(64, 64, 0x9C232DFB69AB851E, 0x9C232DFB69AB851E, 0xA8C0042254470173);
    lemma_pw_step(128, 128, 0xA8C0042254470173, 0xA8C0042254470173, 0x15535AD69462D090);
    lemma_pw_step(256, 256, 0x15535AD69462D090, 0x15535AD69462D090, 0xFEF45A869AAB8679);
    lemma_pw_step(512, 512, 0xFEF45A869AAB8679, 0xFEF45A869AAB8679, 0x21BECCB8B6D8F6FA);
    lemma_pw_step(1024, 1024, 0x21BECCB8B6D8F6FA, 0x21BECCB8B6D8F6FA, 0x583CF0D902A86ABC);
    lemma_pw_step(2048, 2048, 0x583CF0D902A86ABC, 0x583CF0D902A86ABC, 0x8BF128731AB1A0B5);
    lemma_pw_step(4096, 4096, 0x8BF128731AB1A0B5, 0x8BF128731AB1A0B5, 0xD17AD58EE893A7D2);
    lemma_pw_step(8192, 8192, 0xD17AD58EE893A7D2, 0xD17AD58EE893A7D2, 0xFAA379DA87A7F914);
    lemma_pw_step(16384, 16384, 0xFAA379DA87A7F914, 0xFAA379DA87A7F914, 0x9220D622D5CF1603);
    lemma_pw_step(32768, 32768, 0x9220D622D5CF1603, 0x9220D622D5CF1603, 0x9AD50A054DA1207F);
    lemma_pw_step(65536, 65536, 0x9AD50A054DA1207F, 0x9AD50A054DA1207F, 0xA452F750DD9B8A44);
    lemma_pw_step(131072, 131072, 0xA452F750DD9B8A44, 0xA452F750DD9B8A44, 0x1415F3B2BCE09454);
    lemma_pw_step(262144, 262144, 0x1415F3B2BCE09454, 0x1415F3B2BCE09454, 0xD3DB3F11768AE838);
    lemma_pw_step(524288, 524288, 0xD3DB3F11768AE838, 0xD3DB3F11768AE838, 0xB44626E05EDF0086);
    lemma_pw_step(1048576, 1048576, 0xB44626E05EDF0086, 0xB44626E05EDF0086, 0xE4DE14A4047CB0BF);
    lemma_pw_step(2097152, 2097152, 0xE4DE14A4047CB0BF, 0xE4DE14A4047CB0BF, 0xF4D85BD7E852EC36);
    lemma_pw_step(4194304, 4194304, 0xF4D85BD7E852EC36, 0xF4D85BD7E852EC36, 0x3D56E129723521FD);
    lemma_pw_step(8388608, 8388608, 0x3D56E129723521FD, 0x3D56E129723521FD, 0x6402E9B28E42BFE3);
    lemma_pw_step(16777216, 16777216, 0x6402E9B28E42BFE3, 0x6402E9B28E42BFE3, 0xF7FD0E6632895A3A);
    lemma_pw_step(33554432, 33554432, 0xF7FD0E6632895A3A, 0xF7FD0E6632895A3A, 0x44447512BD52434A);
    lemma_pw_step(67108864, 67108864, 0x44447512BD52434A, 0x44447512BD52434A, 0xC878161102D0F705);
    lemma_pw_step(134217728, 134217728, 0xC878161102D0F705, 0xC878161102D0F705, 0xF52DAC93873EB7CE);
    lemma_pw_step(268435456, 268435456, 0xF52DAC93873EB7CE, 0xF52DAC93873EB7CE, 0x4BF5466963DD8AAE);
    lemma_pw_step(536870912, 536870912, 0x4BF5466963DD8AAE, 0x4BF5466963DD8AAE, 0x392EC7049F67A8B5);
    lemma_pw_step(1073741824, 1073741824, 0x392EC7049F67A8B5, 0x392EC7049F67A8B5, 0xF1323B7ACAB09084);
}

proof fn lemma_pw_half()
    ensures
        pw(9223372034707292160) == 0xFFFFFFFF00000000,
{
    lemma_pw_2_31();
    lemma_pw_step(2147483648, 2147483648, 0xF1323B7ACAB09084, 0xF1323B7ACAB09084, 0xAA5B2509F86BB4D4);
    lemma_pw_step(4294967296, 2147483648, 0xAA5B2509F86BB4D4, 0xF1323B7ACAB09084, 0xE2C7CBF74FD4FABC);
    lemma_pw_step(6442450944, 6442450944, 0xE2C7CBF74FD4FABC, 0xE2C7CBF74FD4FABC, 0x11C37210161A0AA8);
    lemma_pw_step(12884901888, 12884901888, 0x11C37210161A0AA8, 0x11C37210161A0AA8, 0x9CDAE742EF128E1B);
    lemma_pw_step(25769803776, 6442450944, 0x9CDAE742EF128E1B, 0xE2C7CBF74FD4FABC, 0xC9F8E7322F37943A);
    lemma_pw_step(32212254720, 32212254720, 0xC9F8E7322F37943A, 0xC9F8E7322F37943A, 0x9C7864A42339F298);
    lemma_pw_step(64424509440, 64424509440, 0x9C7864A42339F298, 0x9C7864A42339F298, 0xA77EC2F191907C3B);
    lemma_pw_step(128849018880, 128849018880, 0xA77EC2F191907C3B, 0xA77EC2F191907C3B, 0x4B55223DC0E9C39C);
    lemma_pw_step(257698037760, 257698037760, 0x4B55223DC0E9C39C, 0x4B55223DC0E9C39C, 0xD6F3AD33A0A47EB4);
    lemma_pw_step(515396075520, 32212254720, 0xD6F3AD33A0A47EB4, 0xC9F8E7322F37943A, 0x7C6D90CEC1EEDB1F);
    lemma_pw_step(547608330240, 547608330240, 0x7C6D90CEC1EEDB1F, 0x7C6D90CEC1EEDB1F, 0xF41555F9BCDDEFBF);
    lemma_pw_step(1095216660480, 1095216660480, 0xF41555F9BCDDEFBF, 0xF41555F9BCDDEFBF, 0x97DC88F27B3AA5C);
    lemma_pw_step(2190433320960, 2190433320960, 0x97DC88F27B3AA5C, 0x97DC88F27B3AA5C, 0x7A9FB44C2BF4D5A4);
    lemma_pw_step(4380866641920, 4380866641920, 0x7A9FB44C2BF4D5A4, 0x7A9FB44C2BF4D5A4, 0x2E90CD88C0AE8B5A);
    lemma_pw_step(8761733283840, 8761733283840, 0x2E90CD88C0AE8B5A, 0x2E90CD88C0AE8B5A, 0xF70447BDAD9EB3CA);
    lemma_pw_step(17523466567680, 17523466567680, 0xF70447BDAD9EB3CA, 0xF70447BDAD9EB3CA, 0x9B2FD4612A326A25);
    lemma_pw_step(35046933135360, 35046933135360, 0x9B2FD4612A326A25, 0x9B2FD4612A326A25, 0x9D83EA9B136C176C);
    lemma_pw_step(70093866270720, 70093866270720, 0x9D83EA9B136C176C, 0x9D83EA9B136C176C, 0xB93F58B144D13108);
    lemma_pw_step(140187732541440, 547608330240, 0xB93F58B144D13108, 0x7C6D90CEC1EEDB1F, 0x658F57B6ADAA80C2);
    lemma_pw_step(140735340871680, 140735340871680, 0x658F57B6ADAA80C2, 0x658F57B6ADAA80C2, 0x75AB0DE70CF3ED11);
    lemma_pw_step(281470681743360, 281470681743360, 0x75AB0DE70CF3ED11, 0x75AB0DE70CF3ED11, 0x2AEAE1BC867521B7);
    lemma_pw_step(562941363486720, 562941363486720, 0x2AEAE1BC867521B7, 0x2AEAE1BC867521B7, 0xA649340C12B39ADD);
    lemma_pw_step(1125882726973440, 1125882726973440, 0xA649340C12B39ADD, 0xA649340C12B39ADD, 0x8E08BF035011EEB);
    lemma_pw_step(2251765453946880, 2251765453946880, 0x8E08BF035011EEB, 0x8E08BF035011EEB, 0xA41230455B178F2E);
    lemma_pw_step(4503530907893760, 4503530907893760, 0xA41230455B178F2E, 0xA41230455B178F2E, 0xD2D74476A5A0096B);
    lemma_pw_step(9007061815787520, 9007061815787520, 0xD2D74476A5A0096B, 0xD2D74476A5A0096B, 0x36BF38104D1ED025);
    lemma_pw_step(18014123631575040, 18014123631575040, 0x36BF38104D1ED025, 0x36BF38104D1ED025, 0xFE7EF81C130FB44D);
    lemma_pw_step(36028247263150080, 36028247263150080, 0xFE7EF81C130FB44D, 0xFE7EF81C130FB44D, 0xC3E84BD12F15D698);
    lemma_pw_step(72056494526300160, 72056494526300160, 0xC3E84BD12F15D698, 0xC3E84BD12F15D698, 0x68E353DCF391EAF1);
    lemma_pw_step(144112989052600320, 144112989052600320, 0x68E353DCF391EAF1, 0x68E353DCF391EAF1, 0xFB7FF3B6FC6E7092);
    lemma_pw_step(288225978105200640, 288225978105200640, 0xFB7FF3B6FC6E7092, 0xFB7FF3B6FC6E7092, 0x1716C532DD4FFF10);
    lemma_pw_step(576451956210401280, 576451956210401280, 0x1716C532DD4FFF10, 0x1716C532DD4FFF10, 0xA84B35ED67820B3E);
    lemma_pw_step(1152903912420802560, 1152903912420802560, 0xA84B35ED67820B3E, 0xA84B35ED67820B3E, 0xDBEFE1DEA482182C);
    lemma_pw_step(2305807824841605120, 2305807824841605120, 0xDBEFE1DEA482182C, 0xDBEFE1DEA482182C, 0x46751476BF8D1B43);
    lemma_pw_step(4611615649683210240, 4611615649683210240, 0x46751476BF8D1B43, 0x46751476BF8D1B43, 0x67D87D1F4A61EFE6);
    lemma_pw_step(9223231299366420480, 140735340871680, 0x67D87D1F4A61EFE6, 0x658F57B6ADAA80C2, 0xFFFFFFFF00000000);
}

proof fn lemma_pw_2_32()
    ensures
        pw(4294967296) == 0xAA5B2509F86BB4D4,
        pw(281479271677952) == 0x2E257B937AF7FA31,
{
    lemma_pw_2_31();
    lemma_pw_step(2147483648, 2147483648, 0xF1323B7ACAB09084, 0xF1323B7ACAB09084, 0xAA5B2509F86BB4D4);
    lemma_pw_step(4294967296, 4294967296, 0xAA5B2509F86BB4D4, 0xAA5B2509F86BB4D4, 0x420265815F3416FD);
    lemma_pw_step(8589934592, 8589934592, 0x420265815F3416FD, 0x420265815F3416FD, 0x735A2FCD9A778A82);
    lemma_pw_step(17179869184, 17179869184, 0x735A2FCD9A778A82, 0x735A2FCD9A778A82, 0x3330C100E58D1CF5);
    lemma_pw_step(34359738368, 34359738368, 0x3330C100E58D1CF5, 0x3330C100E58D1CF5, 0x5AADD62AE39D63B6);
    lemma_pw_step(68719476736, 68719476736, 0x5AADD62AE39D63B6, 0x5AADD62AE39D63B6, 0xA9E387DEC6C58C34);
    lemma_pw_step(137438953472, 137438953472, 0xA9E387DEC6C58C34, 0xA9E387DEC6C58C34, 0x5EAE3C75B470A9FD);
    lemma_pw_step(274877906944, 274877906944, 0x5EAE3C75B470A9FD, 0x5EAE3C75B470A9FD, 0xCC9002922470305D);
    lemma_pw_step(549755813888, 549755813888, 0xCC9002922470305D, 0xCC9002922470305D, 0xC50AC421108AC564);
    lemma_pw_step(1099511627776, 1099511627776, 0xC50AC421108AC564, 0xC50AC421108AC564, 0xE3372BE9840BF885);
    lemma_pw_step(2199023255552, 2199023255552, 0xE3372BE9840BF885, 0xE3372BE9840BF885, 0x5495A82FA4F8D217);
    lemma_pw_step(4398046511104, 4398046511104, 0x5495A82FA4F8D217, 0x5495A82FA4F8D217, 0xB268F85E9ACF4B4D);
    lemma_pw_step(8796093022208, 8796093022208, 0xB268F85E9ACF4B4D, 0xB268F85E9ACF4B4D, 0x3F6C070AB73894AF);
    lemma_pw_step(17592186044416, 17592186044416, 0x3F6C070AB73894AF, 0x3F6C070AB73894AF, 0xB8C128224DCA6F31);
    lemma_pw_step(35184372088832, 35184372088832, 0xB8C128224DCA6F31, 0xB8C128224DCA6F31, 0xF5E147F3C47243F9);
    lemma_pw_step(70368744177664, 70368744177664, 0xF5E147F3C47243F9, 0xF5E147F3C47243F9, 0x23CD79D6D2EC282D);
    lemma_pw_step(140737488355328, 140737488355328, 0x23CD79D6D2EC282D, 0x23CD79D6D2EC282D, 0x4E5F29DCCE8D1ACF);
    lemma_pw_step(281474976710656, 4294967296, 0x4E5F29DCCE8D1ACF, 0xAA5B2509F86BB4D4, 0x2E257B937AF7FA31);
}

proof fn lemma_pw_c()
    ensures
        pw(72340172821233664) == 0x793BE6F67A3A6302,
        pw(1229782937960972288) == 0xA6F35240561CF7FD,
{
    lemma_pw_2_32();
    lemma_pw_step(281479271677952, 281479271677952, 0x2E257B937AF7FA31, 0x2E257B937AF7FA31, 0xA0E96BA9764688C3);
    lemma_pw_step(562958543355904, 562958543355904, 0xA0E96BA9764688C3, 0xA0E96BA9764688C3, 0x4A73D5D76F698BB);
    lemma_pw_step(1125917086711808, 1125917086711808, 0x4A73D5D76F698BB, 0x4A73D5D76F698BB, 0x5194EF863C0E5A1B);
    lemma_pw_step(2251834173423616, 2251834173423616, 0x5194EF863C0E5A1B, 0x5194EF863C0E5A1B, 0xC3E5E970C358F87E);
    lemma_pw_step(4503668346847232, 4503668346847232, 0xC3E5E970C358F87E, 0xC3E5E970C358F87E, 0x3EE0F0BAE3B6D0E7);
    lemma_pw_step(9007336693694464, 9007336693694464, 0x3EE0F0BAE3B6D0E7, 0x3EE0F0BAE3B6D0E7, 0x9FE069369DC075AD);
    lemma_pw_step(18014673387388928, 18014673387388928, 0x9FE069369DC075AD, 0x9FE069369DC075AD, 0xC6762C0B64F81376);
    lemma_pw_step(36029346774777856, 36029346774777856, 0xC6762C0B64F81376, 0xC6762C0B64F81376, 0xD6E1B9C009FAF9B3);
    lemma_pw_step(72058693549555712, 281479271677952, 0xD6E1B9C009FAF9B3, 0x2E257B937AF7FA31, 0x793BE6F67A3A6302);
    lemma_pw_step(72340172821233664, 72340172821233664, 0x793BE6F67A3A6302, 0x793BE6F67A3A6302, 0xD8ECECF76C41843A);
    lemma_pw_step(144680345642467328, 144680345642467328, 0xD8ECECF76C41843A, 0xD8ECECF76C41843A, 0xD526B6E857B7EB55);
    lemma_pw_step(289360691284934656, 289360691284934656, 0xD526B6E857B7EB55, 0xD526B6E857B7EB55, 0x5EE333F2EEC07032);
    lemma_pw_step(578721382569869312, 578721382569869312, 0x5EE333F2EEC07032, 0x5EE333F2EEC07032, 0x3291D921BE4CB8A4);
    lemma_pw_step(1157442765139738624, 72340172821233664, 0x3291D921BE4CB8A4, 0x793BE6F67A3A6302, 0xA6F35240561CF7FD);
}

proof fn lemma_pw_third()
    ensures
        pw(6148914689804861440) == 0xFFFFFFFE00000001,
        pw(3689348813882916864) == 0x130E07948A9D41D6,
{
    lemma_pw_c();
    lemma_pw_step(1229782937960972288, 1229782937960972288, 0xA6F35240561CF7FD, 0xA6F35240561CF7FD, 0x50DDE0550E736628);
    lemma_pw_step(2459565875921944576, 2459565875921944576, 0x50DDE0550E736628, 0x50DDE0550E736628, 0x2DC0B264F6B0711A);
    lemma_pw_step(4919131751843889152, 1229782937960972288, 0x2DC0B264F6B0711A, 0xA6F35240561CF7FD, 0xFFFFFFFE00000001);
    lemma_pw_step(1229782937960972288, 1229782937960972288, 0xA6F35240561CF7FD, 0xA6F35240561CF7FD, 0x50DDE0550E736628);
    lemma_pw_step(2459565875921944576, 1229782937960972288, 0x50DDE0550E736628, 0xA6F35240561CF7FD, 0x130E07948A9D41D6);
}

proof fn lemma_pw_seventeenth()
    ensures
        pw(1085102592318504960) == 0xE23AE4F949F9787A,
{
    lemma_pw_c();
    lemma_pw_step(72340172821233664, 72340172821233664, 0x793BE6F67A3A6302, 0x793BE6F67A3A6302, 0xD8ECECF76C41843A);
    lemma_pw_step(144680345642467328, 72340172821233664, 0xD8ECECF76C41843A, 0x793BE6F67A3A6302, 0xF997C28119B96A05);
    lemma_pw_step(217020518463700992, 217020518463700992, 0xF997C28119B96A05, 0xF997C28119B96A05, 0xEC271F1841AA9CB3);
    lemma_pw_step(434041036927401984, 434041036927401984, 0xEC271F1841AA9CB3, 0xEC271F1841AA9CB3, 0xAF9045EF539108C1);
    lemma_pw_step(868082073854803968, 217020518463700992, 0xAF9045EF539108C1, 0xF997C28119B96A05, 0xE23AE4F949F9787A);
}

proof fn lemma_pw_257th()
    ensures
        pw(71777214277877760) == 0xDCF40D2948736A7,
{
    lemma_pw_2_32();
    lemma_pw_step(281479271677952, 281479271677952, 0x2E257B937AF7FA31, 0x2E257B937AF7FA31, 0xA0E96BA9764688C3);
    lemma_pw_step(562958543355904, 281479271677952, 0xA0E96BA9764688C3, 0x2E257B937AF7FA31, 0xDBE22BD36D64FBE2);
    lemma_pw_step(844437815033856, 844437815033856, 0xDBE22BD36D64FBE2, 0xDBE22BD36D64FBE2, 0xFCD4EB7D518F9219);
    lemma_pw_step(1688875630067712, 1688875630067712, 0xFCD4EB7D518F9219, 0xFCD4EB7D518F9219, 0x2093CBE2CAD9973A);
    lemma_pw_step(3377751260135424, 844437815033856, 0x2093CBE2CAD9973A, 0xDBE22BD36D64FBE2, 0x7A04C459574F03AD);
    lemma_pw_step(4222189075169280, 4222189075169280, 0x7A04C459574F03AD, 0x7A04C459574F03AD, 0xB25B3A03C01000D6);
    lemma_pw_step(8444378150338560, 8444378150338560, 0xB25B3A03C01000D6, 0xB25B3A03C01000D6, 0x3E37EE41B973615);
    lemma_pw_step(16888756300677120, 16888756300677120, 0x3E37EE41B973615, 0x3E37EE41B973615, 0x8E00FF9A60FEEBD);
    lemma_pw_step(33777512601354240, 33777512601354240, 0x8E00FF9A60FEEBD, 0x8E00FF9A60FEEBD, 0x7FB40BFC643862B6);
    lemma_pw_step(67555025202708480, 4222189075169280, 0x7FB40BFC643862B6, 0x7A04C459574F03AD, 0xDCF40D2948736A7);
}

proof fn lemma_pw_65537th()
    ensures
        pw(281470681743360) == 0x75AB0DE70CF3ED11,
{
    lemma_pw_2_32();
    lemma_pw_step(4294967296, 4294967296, 0xAA5B2509F86BB4D4, 0xAA5B2509F86BB4D4, 0x420265815F3416FD);
    lemma_pw_step(8589934592, 4294967296, 0x420265815F3416FD, 0xAA5B2509F86BB4D4, 0x11C37210161A0AA8);
    lemma_pw_step(12884901888, 12884901888, 0x11C37210161A0AA8, 0x11C37210161A0AA8, 0x9CDAE742EF128E1B);
    lemma_pw_step(25769803776, 25769803776, 0x9CDAE742EF128E1B, 0x9CDAE742EF128E1B, 0xD18D4C58124ACC13);
    lemma_pw_step(51539607552, 12884901888, 0xD18D4C58124ACC13, 0x11C37210161A0AA8, 0x9C7864A42339F298);
    lemma_pw_step(64424509440, 64424509440, 0x9C7864A42339F298, 0x9C7864A42339F298, 0xA77EC2F191907C3B);
    lemma_pw_step(128849018880, 128849018880, 0xA77EC2F191907C3B, 0xA77EC2F191907C3B, 0x4B55223DC0E9C39C);
    lemma_pw_step(257698037760, 257698037760, 0x4B55223DC0E9C39C, 0x4B55223DC0E9C39C, 0xD6F3AD33A0A47EB4);
    lemma_pw_step(515396075520, 515396075520, 0xD6F3AD33A0A47EB4, 0xD6F3AD33A0A47EB4, 0xC914996F4B149367);
    lemma_pw_step(1030792151040, 64424509440, 0xC914996F4B149367, 0x9C7864A42339F298, 0xF41555F9BCDDEFBF);
    lemma_pw_step(1095216660480, 1095216660480, 0xF41555F9BCDDEFBF, 0xF41555F9BCDDEFBF, 0x97DC88F27B3AA5C);
    lemma_pw_step(2190433320960, 2190433320960, 0x97DC88F27B3AA5C, 0x97DC88F27B3AA5C, 0x7A9FB44C2BF4D5A4);
    lemma_pw_step(4380866641920, 4380866641920, 0x7A9FB44C2BF4D5A4, 0x7A9FB44C2BF4D5A4, 0x2E90CD88C0AE8B5A);
    lemma_pw_step(8761733283840, 8761733283840, 0x2E90CD88C0AE8B5A, 0x2E90CD88C0AE8B5A, 0xF70447BDAD9EB3CA);
    lemma_pw_step(17523466567680, 17523466567680, 0xF70447BDAD9EB3CA, 0xF70447BDAD9EB3CA, 0x9B2FD4612A326A25);
    lemma_pw_step(35046933135360, 35046933135360, 0x9B2FD4612A326A25, 0x9B2FD4612A326A25, 0x9D83EA9B136C176C);
    lemma_pw_step(70093866270720, 70093866270720, 0x9D83EA9B136C176C, 0x9D83EA9B136C176C, 0xB93F58B144D13108);
    lemma_pw_step(140187732541440, 140187732541440, 0xB93F58B144D13108, 0xB93F58B144D13108, 0xBADBABEFD6F6E080);
    lemma_pw_step(280375465082880, 1095216660480, 0xBADBABEFD6F6E080, 0xF41555F9BCDDEFBF, 0x75AB0DE70CF3ED11);
}

/// Multiples of a period are periods.
proof fn lemma_pw_multiple(a: nat, k: nat)
    requires
        pw(a) == 1,
    ensures
        pw(a * k) == 1,
    decreases k,
{
    if k == 0 {
        assert(a * k == 0) by (nonlinear_arith)
            requires
                k == 0,
        ;
    } else {
        let j = (k - 1) as nat;
        lemma_pw_multiple(a, j);
        assert(a * k == a * j + a) by (nonlinear_arith)
            requires
                k == j + 1,
        ;
        lemma_pw_add(a * j, a);
        lemma_red_small(1);
    }
}

/// The greatest common divisor of two periods is a period.
proof fn lemma_common_period(a: nat, b: nat) -> (g: nat)
    requires
        a > 0,
        pw(a) == 1,
        pw(b) == 1,
    ensures
        g > 0,
        pw(g) == 1,
        a % g == 0,
        b % g == 0,
    decreases b,
{
    if b == 0 {
        vstd::arithmetic::div_mod::lemma_mod_self_0(a as int);
        vstd::arithmetic::div_mod::lemma_small_mod(0, a);
        a
    } else {
        let (q, r) = (a / b, a % b);
        vstd::arithmetic::div_mod::lemma_fundamental_div_mod(a as int, b as int);
        lemma_pw_multiple(b, q);
        lemma_pw_add(b * q, r);
        lemma_pw_bound(r);
        lemma_red_small(pw(r));
        assert(1 * pw(r) == pw(r));
        let g = lemma_common_period(b, r);
        lemma_divides_combination(b as int, r as int, q as int, g as int);
        g
    }
}

proof fn lemma_divides_combination(b: int, r: int, q: int, g: int)
    requires
        g > 0,
        b % g == 0,
        r % g == 0,
    ensures
        (b * q + r) % g == 0,
{
    vstd::arithmetic::div_mod::lemma_fundamental_div_mod(b, g);
    vstd::arithmetic::div_mod::lemma_fundamental_div_mod(r, g);
    let (x, y) = (b / g, r / g);
    assert(b * q + r == (x * q + y) * g) by (nonlinear_arith)
        requires
            b == g * x,
            r == g * y,
    ;
    vstd::arithmetic::div_mod::lemma_mod_multiples_basic(x * q + y, g);
}

/// Bezout coefficients.
proof fn lemma_bezout(a: nat, b: nat) -> (r: (int, int, nat))
    requires
        a > 0,
    ensures
        r.2 > 0,
        r.0 * a + r.1 * b == r.2,
        a % r.2 == 0,
        b % r.2 == 0,
    decreases b,
{
    if b == 0 {
        vstd::arithmetic::div_mod::lemma_mod_self_0(a as int);
        vstd::arithmetic::div_mod::lemma_small_mod(0, a);
        assert(1 * a + 0 * b == a);
        (1, 0, a)
    } else {
        let (q, m) = (a / b, a % b);
        vstd::arithmetic::div_mod::lemma_fundamental_div_mod(a as int, b as int);
        let (x, y, g) = lemma_bezout(b, m);
        lemma_divides_combination(b as int, m as int, q as int, g as int);
        assert(y * a + (x - q * y) * b == x * b + y * m) by (nonlinear_arith)
            requires
                a == b * q + m,
        ;
        (y, x - q * y, g)
    }
}

/// No number strictly between one and `q` divides `q`.
spec fn indivisible(q: nat) -> bool {
    q > 1 && forall|d: nat| 1 < d < q ==> #[trigger] (q % d) != 0
}

/// An indivisible number that divides a product divides a factor.
proof fn lemma_euclid(q: nat, a: nat, b: nat)
    requires
        indivisible(q),
        a > 0,
        (a * b) % q == 0,
        a % q != 0,
    ensures
        b % q == 0,
{
    let (x, y, g) = lemma_bezout(a, q);
    if g > 1 {
        if g < q {
            assert(q % g != 0);
        } else {
            vstd::arithmetic::div_mod::lemma_fundamental_div_mod(q as int, g as int);
            assert(g == q) by (nonlinear_arith)
                requires
                    g >= q,
                    q == g * (q / g),
                    q > 1,
                    g > 0,
            ;
        }
    }
    assert(g == 1);
    vstd::arithmetic::div_mod::lemma_fundamental_div_mod((a * b) as int, q as int);
    let k = (a * b) as int / (q as int);
    let c = x * k + y * b;
    assert(b == c * q) by (nonlinear_arith)
        requires
            x * a + y * q == 1,
            a * b == q * k,
            c == x * k + y * b,
    ;
    vstd::arithmetic::div_mod::lemma_mod_multiples_basic(c, q as int);
}

proof fn lemma_indivisible_small()
    ensures
        indivisible(3),
        indivisible(5),
        indivisible(17),
{
    assert forall|d: nat| 1 < d < 3 implies #[trigger] (3nat % d) != 0 by {
        assert(d == 2);
    }
    assert forall|d: nat| 1 < d < 5 implies #[trigger] (5nat % d) != 0 by {
        assert(d == 2 || d == 3 || d == 4);
    }
    assert forall|d: nat| 1 < d < 17 implies #[trigger] (17nat % d) != 0 by {
        assert(d == 2 || d == 3 || d == 4 || d == 5 || d == 6 || d == 7 || d == 8 || d == 9 || d
            == 10 || d == 11 || d == 12 || d == 13 || d == 14 || d == 15 || d == 16);
    }
}

/// A number without a divisor from 2 to 256 has none but itself, if it is less than `257^2`.
proof fn lemma_indivisible_by_trial(q: nat)
    requires
        256 < q < 66049,
        forall|d: u32| 2 <= d && d <= 256 ==> #[trigger] ((q as u32) % d) != 0,
    ensures
        indivisible(q),
{
    assert forall|d: nat| 1 < d < q implies #[trigger] (q % d) != 0 by {
        if q % d == 0 {
            let k = q / d;
            vstd::arithmetic::div_mod::lemma_fundamental_div_mod(q as int, d as int);
            if d <= 256 {
                assert((q as u32) % (d as u32) != 0);
            } else {
                assert(1 < k <= 256) by (nonlinear_arith)
                    requires
                        q == d * k,
                        256 < d < q,
                        q < 66049,
                ;
                assert(q == k * d) by (nonlinear_arith)
                    requires
                        q == d * k,
                ;
                vstd::arithmetic::div_mod::lemma_mod_multiples_basic(d as int, k as int);
                assert(d * k == k * d) by (nonlinear_arith);
                assert((q as u32) % (k as u32) != 0);
            }
        }
    }
}

proof fn lemma_indivisible_large()
    ensures
        indivisible(257),
        indivisible(65537),
{
    assert(forall|d: u32| 2 <= d && d <= 256 ==> #[trigger] (257u32 % d) != 0) by (bit_vector);
    assert(forall|d: u32| 2 <= d && d <= 256 ==> #[trigger] (65537u32 % d) != 0) by (bit_vector);
    lemma_indivisible_by_trial(257);
    lemma_indivisible_by_trial(65537);
}

/// What is left of the cofactor of an odd divisor once the powers of two are taken out.
proof fn lemma_strip_two(m: nat, g: nat, f: nat, k: nat) -> (r: nat)
    requires
        m % 2 == 1,
        m * g == f * vstd::arithmetic::power2::pow2(k),
    ensures
        m * r == f,
    decreases k,
{
    if k == 0 {
        vstd::arithmetic::power2::lemma2_to64();
        assert(f * 1 == f);
        g
    } else {
        let j = (k - 1) as nat;
        vstd::arithmetic::power2::lemma_pow2_unfold(k);
        let p = vstd::arithmetic::power2::pow2(j);
        assert(f * (2 * p) == 2 * (f * p)) by (nonlinear_arith);
        assert(g % 2 == 0) by {
            if g % 2 == 1 {
                let (a, b) = (m / 2, g / 2);
                assert(m * g == 2 * (2 * a * b + a + b) + 1) by (nonlinear_arith)
                    requires
                        m == 2 * a + 1,
                        g == 2 * b + 1,
                ;
            }
        }
        let h = g / 2;
        assert(m * g == 2 * (m * h)) by (nonlinear_arith)
            requires
                g == 2 * h,
        ;
        lemma_strip_two(m, h, f, j)
    }
}

/// What is left of the cofactor once `q` is taken out.
proof fn lemma_strip(m: nat, g: nat, q: nat, f: nat) -> (r: nat)
    requires
        indivisible(q),
        m > 0,
        m % q != 0,
        m * g == q * f,
    ensures
        m * r == f,
{
    vstd::arithmetic::div_mod::lemma_mod_multiples_basic(f as int, q as int);
    assert(q * f == f * q) by (nonlinear_arith);
    lemma_euclid(q, m, g);
    vstd::arithmetic::div_mod::lemma_fundamental_div_mod(g as int, q as int);
    let h = g / q;
    assert(q * (m * h) == q * f) by (nonlinear_arith)
        requires
            m * g == q * f,
            g == q * h,
    ;
    assert(m * h == f) by (nonlinear_arith)
        requires
            q * (m * h) == q * f,
            q > 0,
    ;
    h
}

/// A divisor of the group order above one is divisible by one of its six prime factors.
proof fn lemma_prime_factor(m: nat, g: nat) -> (q: nat)
    requires
        m > 1,
        m * g == P - 1,
    ensures
        q == 2 || q == 3 || q == 5 || q == 17 || q == 257 || q == 65537,
        m % q == 0,
{
    lemma_indivisible_small();
    lemma_indivisible_large();
    if m % 2 == 0 {
        2
    } else if m % 3 == 0 {
        3
    } else if m % 5 == 0 {
        5
    } else if m % 17 == 0 {
        17
    } else if m % 257 == 0 {
        257
    } else if m % 65537 == 0 {
        65537
    } else {
        vstd::arithmetic::power2::lemma2_to64();
        assert(4294967295nat * vstd::arithmetic::power2::pow2(32) == P - 1);
        let a = lemma_strip_two(m, g, 4294967295, 32);
        let b = lemma_strip(m, a, 3, 1431655765);
        let c = lemma_strip(m, b, 5, 286331153);
        let d = lemma_strip(m, c, 17, 16843009);
        let e = lemma_strip(m, d, 257, 65537);
        let f = lemma_strip(m, e, 65537, 1);
        assert(false) by (nonlinear_arith)
            requires
                m * f == 1,
                m > 1,
        ;
        2
    }
}

proof fn lemma_pw_whole()
    ensures
        pw(18446744069414584320) == 1,
{
    lemma_pw_half();
    lemma_pw_step(
        9223372034707292160,
        9223372034707292160,
        0xFFFFFFFF00000000,
        0xFFFFFFFF00000000,
        1,
    );
}

/// The power at the group order over one of its prime factors is not one.
proof fn lemma_cofactor(q: nat, x: nat)
    requires
        q == 2 || q == 3 || q == 5 || q == 17 || q == 257 || q == 65537,
        q * x == P - 1,
    ensures
        pw(x) != 1,
{
    if q == 2 {
        assert(x == 9223372034707292160);
        lemma_pw_half();
    } else if q == 3 {
        assert(x == 6148914689804861440);
        lemma_pw_third();
    } else if q == 5 {
        assert(x == 3689348813882916864);
        lemma_pw_third();
    } else if q == 17 {
        assert(x == 1085102592318504960);
        lemma_pw_seventeenth();
    } else if q == 257 {
        assert(x == 71777214277877760);
        lemma_pw_257th();
    } else {
        assert(x == 281470681743360);
        lemma_pw_65537th();
    }
}

/// No smaller power of the generator is one.
proof fn lemma_order(e: nat)
    requires
        0 < e < P - 1,
    ensures
        pw(e) != 1,
{
    if pw(e) == 1 {
        let n = (P - 1) as nat;
        lemma_pw_whole();
        assert(pw(n) == 1);
        let g = lemma_common_period(n, e);
        vstd::arithmetic::div_mod::lemma_fundamental_div_mod(n as int, g as int);
        vstd::arithmetic::div_mod::lemma_fundamental_div_mod(e as int, g as int);
        let m = n / g;
        assert(g <= e) by (nonlinear_arith)
            requires
                e == g * (e / g),
                e > 0,
                g > 0,
        ;
        assert(m > 1) by (nonlinear_arith)
            requires
                n == g * m,
                g <= e,
                e < n,
        ;
        assert(m * g == g * m) by (nonlinear_arith);
        let q = lemma_prime_factor(m, g);
        vstd::arithmetic::div_mod::lemma_fundamental_div_mod(m as int, q as int);
        let k = m / q;
        lemma_pw_multiple(g, k);
        assert(q * (g * k) == n) by (nonlinear_arith)
            requires
                n == g * m,
                m == q * k,
        ;
        lemma_cofactor(q, g * k);
    }
}

/// Distinct powers below the order are distinct residues.
proof fn lemma_distinct(i: nat, j: nat)
    requires
        i < j < P - 1,
    ensures
        pw(i) != pw(j),
{
    if pw(i) == pw(j) {
        let n = (P - 1) as nat;
        let (d, c) = ((j - i) as nat, (n - i) as nat);
        lemma_pw_whole();
        lemma_pw_add(i, c);
        lemma_pw_add(j, c);
        assert(j + c == n + d);
        lemma_pw_add(n, d);
        lemma_pw_bound(d);
        lemma_red_small(pw(d));
        assert(1 * pw(d) == pw(d));
        lemma_order(d);
    }
}

/// Every nonzero residue is a power of the generator.
proof fn lemma_every_residue(a: int) -> (k: nat)
    requires
        0 < a < P,
    ensures
        k < P - 1,
        pw(k) == a,
{
    let n = P as int - 1;
    let exponents = vstd::set_lib::set_int_range(0, n);
    let residues = vstd::set_lib::set_int_range(1, P as int);
    vstd::set_lib::lemma_int_range(0, n);
    vstd::set_lib::lemma_int_range(1, P as int);
    let f = |i: int| pw(i as nat);
    let image = exponents.map(f);
    assert forall|i: int, j: int|
        #![trigger f(i), f(j)]
        exponents.contains(i) && exponents.contains(j) && f(i) == f(j) implies i == j by {
        if i < j {
            lemma_distinct(i as nat, j as nat);
        } else if j < i {
            lemma_distinct(j as nat, i as nat);
        }
    }
    vstd::set_lib::lemma_map_size(exponents, image, f);
    assert(image.subset_of(residues)) by {
        assert forall|x: int| image.contains(x) implies residues.contains(x) by {
            let i = choose|i: int| exponents.contains(i) && f(i) == x;
            lemma_pw_bound(i as nat);
            lemma_pw_whole();
            lemma_pw_add(i as nat, (n - i) as nat);
            if x == 0 {
                assert(0 * pw((n - i) as nat) == 0);
                lemma_red_small(0);
            }
        }
    }
    vstd::set_lib::lemma_subset_equality(image, residues);
    assert(residues.contains(a));
    assert(image.contains(a));
    let k = choose|k: int| exponents.contains(k) && f(k) == a;
    k as nat
}

/// Every nonzero field element has an inverse.
pub proof fn law_inverse_exists(a: int) -> (b: int)
    requires
        red(a) != 0,
    ensures
        is_inverse(a, b),
{
    let n = (P - 1) as nat;
    let r = red(a);
    lemma_red_bound(a);
    let k = lemma_every_residue(r);
    let b = pw((n - k) as nat);
    lemma_pw_bound((n - k) as nat);
    lemma_pw_whole();
    lemma_pw_add(k, (n - k) as nat);
    lemma_red_mul(a, b);
    b
}

/// A product vanishes in the field only where a factor does.
pub proof fn law_no_zero_divisors(a: int, b: int)
    requires
        red(a * b) == 0,
    ensures
        red(a) == 0 || red(b) == 0,
{
    if red(a) != 0 {
        let c = law_inverse_exists(a);
        // b = (a c) b = c (a b) = 0
        lemma_red_mul(a * c, b);
        lemma_red_mul(c, a * b);
        assert((a * c) * b == c * (a * b)) by (nonlinear_arith);
        assert(1 * b == b);
        assert(c * 0 == 0);
        lemma_red_small(0);
    }
}

/// The polynomial `x (1 - x)` vanishes only on bits.
pub proof fn law_bits(x: int)
    requires
        red(x * (1 - x)) == 0,
    ensures
        red(x) == 0 || red(x) == 1,
{
    law_no_zero_divisors(x, 1 - x);
    if red(1 - x) == 0 {
        crate::field::lemma_cong_diff(1, x);
        lemma_red_small(1);
    }
}

/// The constant of the extension has no square root in the field.
pub proof fn law_non_residue(y: int)
    ensures
        red(y * y) != 7,
{
    if red(y * y) == 7 {
        let n = (P - 1) as nat;
        let r = red(y);
        lemma_red_bound(y);
        lemma_red_mul(y, y);
        lemma_red_small(0);
        assert(0 * 0 == 0);
        assert(r != 0);
        let k = lemma_every_residue(r);
        lemma_pw_add(k, k);
        assert(pw(k + k) == 7);
        reveal_with_fuel(pw, 2);
        lemma_red_small(7);
        assert(pw(1) == 7);
        let e = k + k;
        if e < n {
            if e == 0 {
                assert(pw(0) == 1);
            } else {
                lemma_distinct(1, e);
            }
        } else {
            let d = (e - n) as nat;
            lemma_pw_add(n, d);
            lemma_pw_whole();
            lemma_pw_bound(d);
            lemma_red_small(pw(d));
            assert(1 * pw(d) == pw(d));
            assert(d != 1);
            if d == 0 {
                assert(pw(0) == 1);
            } else {
                lemma_distinct(1, d);
            }
        }
    }
}

/// The norm of a nonzero extension element is not zero.
proof fn lemma_norm(a: (int, int))
    requires
        ered(a) != (0int, 0int),
    ensures
        red(a.0 * a.0 - 7 * (a.1 * a.1)) != 0,
{
    let (x, y) = a;
    if red(x * x - 7 * (y * y)) == 0 {
        lemma_cong_diff(x * x, 7 * (y * y));
        lemma_red_small(0);
        if red(y) == 0 {
            lemma_red_mul(y, y);
            assert(0 * 0 == 0 && 7 * 0 == 0);
            lemma_red_mul(7, y * y);
            assert(red(x * x) == 0);
            law_no_zero_divisors(x, x);
        } else {
            let c = law_inverse_exists(y);
            // (x c)^2 = 7 (y c)^2 = 7
            let z = x * c;
            lemma_cong_mul(x * x, 7 * (y * y), c * c, c * c);
            assert((x * x) * (c * c) == z * z) by (nonlinear_arith)
                requires
                    z == x * c,
            ;
            assert((7 * (y * y)) * (c * c) == 7 * ((y * c) * (y * c))) by (nonlinear_arith);
            lemma_red_small(1);
            lemma_cong_mul(y * c, 1, y * c, 1);
            lemma_cong_mul(7, 7, (y * c) * (y * c), 1);
            lemma_red_small(7);
            assert(red(z * z) == 7);
            law_non_residue(z);
        }
    }
}

/// Every nonzero extension element has an inverse.
pub proof fn law_einverse_exists(a: (int, int)) -> (b: (int, int))
    requires
        ered(a) != (0int, 0int),
    ensures
        is_einverse(a, b),
{
    let (x, y) = a;
    let norm = x * x - 7 * (y * y);
    lemma_norm(a);
    let m = law_inverse_exists(norm);
    let u = (x * m, -(y * m));
    let b = ered(u);
    lemma_ered(u);
    lemma_econg_mul(a, a, b, u);
    assert(zmul(a, u) == (norm * m, 0int)) by {
        assert(x * (x * m) + 7 * (y * (-(y * m))) == (x * x - 7 * (y * y)) * m) by (nonlinear_arith);
        assert(x * (-(y * m)) + y * (x * m) == 0) by (nonlinear_arith);
    }
    lemma_red_small(0);
    b
}

} // verus!
